//! Selection of files and the outcome of a scan.

use yarecs::cli::{
    count_errors, exit_code, glob_match, is_excluded, parse_extensions, parse_source, scan_text,
    strip_bom, summary, wants_file,
};
use yarecs::lexer::TokenKind;
use yarecs::rules::{compile_rules, RuleConfig, SearchTarget, Severity};

#[test]
fn exact_match() {
    assert!(glob_match("target", "target"));
    assert!(glob_match("_build", "_build"));
}

#[test]
fn exact_no_match() {
    assert!(!glob_match("target", "targets"));
    assert!(!glob_match("target", "my_target"));
}

#[test]
fn wildcard_prefix() {
    assert!(glob_match("_*", "_build"));
    assert!(glob_match("_*", "_cache"));
    assert!(!glob_match("_*", "build"));
}

#[test]
fn wildcard_suffix() {
    assert!(glob_match("*_test", "my_test"));
    assert!(!glob_match("*_test", "my_tests"));
}

#[test]
fn wildcard_only() {
    assert!(glob_match("*", "anything"));
    assert!(glob_match("*", ""));
}

#[test]
fn wildcard_infix() {
    assert!(glob_match("test*data", "testdata"));
    assert!(glob_match("test*data", "test_extra_data"));
    assert!(!glob_match("test*data", "testdat"));
}

#[test]
fn empty_pattern_matches_empty_only() {
    assert!(glob_match("", ""));
    assert!(!glob_match("", "x"));
}

#[test]
fn star_does_not_match_a_separator() {
    assert!(!glob_match("*", "a/b"));
    assert!(glob_match("*/*", "a/b"));
}

#[test]
fn several_stars_backtrack() {
    assert!(glob_match("*a*b", "xaxbxab"));
    assert!(!glob_match("*a*b", "xbxa"));
    assert!(glob_match("**", "abc"));
}

#[test]
fn any_pattern_excludes() {
    let patterns = vec!["target".to_string(), "_*".to_string()];
    assert!(is_excluded(&patterns, "_cache"));
    assert!(is_excluded(&patterns, "target"));
    assert!(!is_excluded(&patterns, "src"));
    assert!(!is_excluded(&[], "src"));
}

#[test]
fn extensions_are_trimmed() {
    assert_eq!(parse_extensions("c, h ,\tcpp"), vec!["c", "h", "cpp"]);
    assert_eq!(parse_extensions(""), vec![""]);
}

#[test]
fn files_are_selected_by_extension() {
    let extensions = parse_extensions("c,h");
    assert!(wants_file(false, &extensions, "h"));
    assert!(!wants_file(false, &extensions, "rs"));
    assert!(!wants_file(false, &extensions, ""));
    assert!(wants_file(true, &extensions, "rs"));
}

#[test]
fn byte_order_mark_is_stripped_once() {
    assert_eq!(strip_bom("\u{feff}a"), "a");
    assert_eq!(strip_bom("\u{feff}\u{feff}"), "\u{feff}");
    assert_eq!(strip_bom("a\u{feff}"), "a\u{feff}");
    assert_eq!(strip_bom(""), "");
    assert_eq!(strip_bom("\u{fefe}b"), "\u{fefe}b");
}

fn rule(name: &str, pattern: &str, severity: Severity) -> RuleConfig {
    RuleConfig {
        name: name.to_string(),
        pattern: pattern.to_string(),
        scope: Some("**".to_string()),
        message: "m".to_string(),
        severity,
        case_insensitive: false,
        word: false,
        multiline: false,
        search: SearchTarget::Code,
        chain: vec![],
    }
}

#[test]
fn text_of_a_file_is_scanned() {
    let rules = compile_rules(&[rule("r", "gets", Severity::Error)]).ok().unwrap();
    let raw = "\u{feff}void f() { gets(b); /* gets */ }";
    let ms = scan_text(raw, "a.c", "c", &rules).unwrap();
    assert_eq!(ms.len(), 1);
    assert_eq!((ms[0].line, ms[0].column), (1, 12));
    assert_eq!(ms[0].file, "a.c");
    assert_eq!(ms[0].scope_path, vec!["f"]);
}

#[test]
fn extension_selects_language_and_lexer() {
    let parsed = parse_source("fn f() { }", "rs").unwrap();
    assert_eq!(parsed.tree.children[0].name, "f");
    let parsed = parse_source("if x:\n  y\n", "py").unwrap();
    assert!(parsed.lex.tokens.iter().any(|t| t.kind == TokenKind::Indent));
    let parsed = parse_source("if x:\n  y\n", "c").unwrap();
    assert!(parsed.lex.tokens.iter().all(|t| t.kind != TokenKind::Indent));
}

#[test]
fn exit_code_tells_errors() {
    let rules = compile_rules(&[
        rule("w", "warn", Severity::Warning),
        rule("e", "fail", Severity::Error),
    ])
    .ok()
    .unwrap();
    let clean = scan_text("void f() { warn(); }", "a.c", "c", &rules).unwrap();
    assert_eq!(exit_code(&clean), 0);
    assert_eq!(summary(3, &clean), "Scanned 3 file(s) \u{2014} 1 match(es) (0 error(s))");
    let bad = scan_text("void f() { warn(); fail(); fail(); }", "a.c", "c", &rules).unwrap();
    assert_eq!(exit_code(&bad), 1);
    assert_eq!(count_errors(&bad), 2);
    assert_eq!(summary(1, &bad), "Scanned 1 file(s) \u{2014} 3 match(es) (2 error(s))");
    assert_eq!(exit_code(&[]), 0);
}
