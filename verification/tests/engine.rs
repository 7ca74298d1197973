//! Scans of whole sources: scopes, search targets, chains and languages.

use grep::regex::RegexMatcherBuilder;
use std::collections::HashSet;
use yarecs::engine::{
    chain_satisfied, claim, scan_file, try_scan_file, MatchContext, ScanMatch,
};
use yarecs::lexer::Lexer;
use yarecs::rules::{
    compile_rule, ChainRelationship, ChainedPattern, Rule, RuleConfig, ScopeFilter, SearchTarget,
    Severity,
};
use yarecs::scope::{profile_for_ext, ScopeParser};

// -----------------------------------------------------------------------
// Source generator
// -----------------------------------------------------------------------

const PREAMBLE: &str = "class TestClass {\npublic:\n    void big_method() {\n";
const POSTAMBLE: &str = "    }\n};\n";
const PREAMBLE_LINES: usize = 3;
const FILLER: &[&str] = &[
    "alpha", "beta", "gamma", "delta", "epsilon",
    "zeta", "eta", "theta", "iota", "kappa",
];

fn lcg(s: u64) -> u64 {
    s.wrapping_mul(6364136223846793005)
     .wrapping_add(1442695040888963407)
}

fn build_large_source(
    target_body_bytes: usize,
    code_needle: &str,
    comment_needle: &str,
    code_every: usize,
    comment_every: usize,
) -> (String, Vec<usize>, Vec<usize>) {
    let mut body = String::with_capacity(target_body_bytes + 1024);
    let mut code_lines: Vec<usize> = Vec::new();
    let mut comment_lines: Vec<usize> = Vec::new();
    let mut rng: u64 = 0xdeadbeef_cafebabe;
    let mut body_line = 0usize;

    while body.len() < target_body_bytes {
        body_line += 1;
        let src_line = PREAMBLE_LINES + body_line;

        if body_line % code_every == 0 {
            body.push_str("        ");
            body.push_str(code_needle);
            body.push_str("();\n");
            code_lines.push(src_line);
        } else if body_line % comment_every == 0 {
            body.push_str("        // ");
            body.push_str(comment_needle);
            body.push('\n');
            comment_lines.push(src_line);
        } else {
            rng = lcg(rng);
            let w1 = FILLER[(rng >> 33) as usize % FILLER.len()];
            rng = lcg(rng);
            let w2 = FILLER[(rng >> 33) as usize % FILLER.len()];
            rng = lcg(rng);
            let w3 = FILLER[(rng >> 33) as usize % FILLER.len()];
            body.push_str(&format!("        {} = {} + {};\n", w1, w2, w3));
        }
    }

    (format!("{}{}{}", PREAMBLE, body, POSTAMBLE), code_lines, comment_lines)
}

fn make_rule(pattern: &str, filter: &str, target: SearchTarget) -> Rule {
    Rule {
        name: "test".to_string(),
        matcher: RegexMatcherBuilder::new().build(pattern).unwrap(),
        scope_filter: Some(ScopeFilter::parse(filter)),
        message: "test".to_string(),
        severity: Severity::Warning,
        search_target: target,
        chain: vec![],
    }
}

fn make_chained_rule(
    trigger: &str,
    filter: &str,
    chain: Vec<(&str, ChainRelationship)>,
) -> Rule {
    let chained = chain.into_iter().map(|(pat, rel)| ChainedPattern {
        matcher: RegexMatcherBuilder::new().build(pat).unwrap(),
        relationship: rel,
        negate: false,
        within_lines: None,
    }).collect();
    Rule {
        name: "chain_test".to_string(),
        matcher: RegexMatcherBuilder::new().build(trigger).unwrap(),
        scope_filter: Some(ScopeFilter::parse(filter)),
        message: "chain".to_string(),
        severity: Severity::Warning,
        search_target: SearchTarget::All,
        chain: chained,
    }
}

fn run(source: &str, rules: &[Rule]) -> Vec<ScanMatch> {
    let lex  = Lexer::new(source, false).tokenize();
    let tree = ScopeParser::new(profile_for_ext("cpp")).parse(&lex.tokens, source.len());
    scan_file(source, "test.cpp", &tree, rules, &lex)
}

fn run_single(source: &str, filter: &str, needle: &str) -> Vec<ScanMatch> {
    run(source, &[make_rule(needle, filter, SearchTarget::All)])
}

/// Variant of `make_chained_rule` that accepts a `negate` flag per chain entry.
fn make_chained_rule_neg(
    trigger: &str,
    filter: &str,
    chain: Vec<(&str, ChainRelationship, bool)>,
) -> Rule {
    let chained = chain.into_iter().map(|(pat, rel, neg)| ChainedPattern {
        matcher: RegexMatcherBuilder::new().build(pat).unwrap(),
        relationship: rel,
        negate: neg,
        within_lines: None,
    }).collect();
    Rule {
        name: "chain_neg_test".to_string(),
        matcher: RegexMatcherBuilder::new().build(trigger).unwrap(),
        scope_filter: Some(ScopeFilter::parse(filter)),
        message: "chain_neg".to_string(),
        severity: Severity::Warning,
        search_target: SearchTarget::All,
        chain: chained,
    }
}

/// Like `run` but uses the profile for `ext` instead of C++.
fn run_for_lang(source: &str, rules: &[Rule], ext: &str) -> Vec<ScanMatch> {
    let lex  = Lexer::new(source, false).tokenize();
    let tree = ScopeParser::new(profile_for_ext(ext)).parse(&lex.tokens, source.len());
    scan_file(source, &format!("test.{ext}"), &tree, rules, &lex)
}

fn run_single_lang(source: &str, filter: &str, needle: &str, ext: &str) -> Vec<ScanMatch> {
    run_for_lang(source, &[make_rule(needle, filter, SearchTarget::All)], ext)
}

// -----------------------------------------------------------------------
// UTF-8 BOM resilience
// -----------------------------------------------------------------------

// Files produced by MSVC often begin with a UTF-8 BOM (U+FEFF, bytes EF BB BF).  Scanning such
// files with scope="**", which reaches the root scope, finds the matches.

#[test]
fn bom_file_code_search_does_not_panic() {
    // BOM at byte 0, then a global-scope needle (no enclosing class/function).
    let source = "\u{FEFF}// top of file\nstrcpy(dst, src);\n";
    let rule = make_rule("strcpy", "**", SearchTarget::Code);
    let matches = run(source, &[rule]);
    assert_eq!(matches.len(), 1, "expected one match in BOM file");
    assert_eq!(matches[0].matched_text, "strcpy");
}

#[test]
fn bom_file_all_search_does_not_panic() {
    // Same source, SearchTarget::All – exercises the body[0..] slice on the root.
    let source = "\u{FEFF}strcpy(dst, src); // bad\n";
    let rule = make_rule("strcpy", "**", SearchTarget::All);
    let matches = run(source, &[rule]);
    assert_eq!(matches.len(), 1);
}

#[test]
fn bom_file_match_inside_class() {
    // BOM + normal class body – confirms named scopes still work correctly.
    let source = "\u{FEFF}class Foo {\n    void bar() { strcpy(d, s); }\n};\n";
    let rule = make_rule("strcpy", "Foo::bar", SearchTarget::Code);
    let matches = run(source, &[rule]);
    assert_eq!(matches.len(), 1);
    assert_eq!(matches[0].scope_path, vec!["Foo", "bar"]);
}

// -----------------------------------------------------------------------
// Large-file tests
// -----------------------------------------------------------------------

#[test]
fn large_body_code_needles_found_at_correct_lines() {
    let (source, code_lines, _) = build_large_source(
        128 * 1024, "CODE_NEEDLE", "COMMENT_NEEDLE", 97, 53,
    );
    let rule = make_rule("CODE_NEEDLE", "TestClass::big_method", SearchTarget::All);
    let matches = run(&source, &[rule]);

    assert_eq!(matches.len(), code_lines.len(),
        "expected {} code matches, got {}", code_lines.len(), matches.len());
    for (m, &expected_line) in matches.iter().zip(code_lines.iter()) {
        assert_eq!(m.line, expected_line,
            "wrong line: expected {expected_line}, got {}", m.line);
        assert_eq!(m.scope_path, vec!["TestClass", "big_method"]);
        assert_eq!(m.context, MatchContext::Code);
    }
}

#[test]
fn large_body_comment_needles_annotated_as_comment() {
    let (source, _, comment_lines) = build_large_source(
        128 * 1024, "CODE_NEEDLE", "COMMENT_NEEDLE", 97, 53,
    );
    let rule = make_rule("COMMENT_NEEDLE", "TestClass::big_method", SearchTarget::All);
    let matches = run(&source, &[rule]);

    assert_eq!(matches.len(), comment_lines.len());
    for (m, &expected_line) in matches.iter().zip(comment_lines.iter()) {
        assert_eq!(m.line, expected_line);
        assert_eq!(m.context, MatchContext::Comment);
    }
}

#[test]
fn large_body_comment_search_excludes_code_matches() {
    let (source, _, comment_lines) = build_large_source(
        128 * 1024, "SHARED_NEEDLE", "SHARED_NEEDLE", 150, 97,
    );
    let rule = make_rule("SHARED_NEEDLE", "TestClass::big_method", SearchTarget::Comments);
    let matches = run(&source, &[rule]);

    assert_eq!(matches.len(), comment_lines.len(),
        "comment-only search: expected {} matches, got {}",
        comment_lines.len(), matches.len());
    for m in &matches { assert_eq!(m.context, MatchContext::Comment); }
    for (m, &expected_line) in matches.iter().zip(comment_lines.iter()) {
        assert_eq!(m.line, expected_line);
    }
}

// -----------------------------------------------------------------------
// Nesting-depth helpers + tests
// -----------------------------------------------------------------------

fn build_deeply_nested(ns_depth: usize, class_depth: usize, needle: &str) -> (String, Vec<String>) {
    let mut src  = String::new();
    let mut path = Vec::new();
    for i in 0..ns_depth {
        let name = format!("ns{i}");
        src.push_str(&format!("namespace {name} {{\n"));
        path.push(name);
    }
    for i in 0..class_depth {
        let name = format!("Class{i}");
        src.push_str(&format!("class {name} {{\npublic:\n"));
        path.push(name);
    }
    src.push_str("    void leaf_fn() {\n");
    path.push("leaf_fn".to_string());
    src.push_str(&format!("        {needle}();\n"));
    src.push_str("    }\n");
    for _ in 0..class_depth { src.push_str("};\n"); }
    for _ in 0..ns_depth    { src.push_str("}\n"); }
    (src, path)
}

#[test]
fn deep_namespace_nesting_correct_path() {
    let (src, expected_path) = build_deeply_nested(20, 1, "DEEP_NEEDLE");
    let ms = run_single(&src, "**::leaf_fn", "DEEP_NEEDLE");
    assert_eq!(ms.len(), 1, "expected exactly one match in the leaf method");
    assert_eq!(ms[0].scope_path, expected_path, "scope path mismatch at depth 20");
    assert_eq!(ms[0].context, MatchContext::Code);
}

#[test]
fn deep_class_nesting_correct_path() {
    let (src, expected_path) = build_deeply_nested(0, 6, "DEEP_NEEDLE");
    let ms = run_single(&src, "**::leaf_fn", "DEEP_NEEDLE");
    assert_eq!(ms.len(), 1);
    assert_eq!(ms[0].scope_path, expected_path, "scope path mismatch at class depth 6");
}

#[test]
fn mixed_namespace_and_class_nesting_correct_path() {
    let (src, expected_path) = build_deeply_nested(10, 4, "DEEP_NEEDLE");
    let ms = run_single(&src, "**::leaf_fn", "DEEP_NEEDLE");
    assert_eq!(ms.len(), 1);
    assert_eq!(ms[0].scope_path, expected_path);
}

// -----------------------------------------------------------------------
// Delimiter-interference tests
// -----------------------------------------------------------------------

#[test]
fn braces_inside_string_literals_dont_affect_scope() {
    let src = r#"
class Widget {
public:
    void tricky() {
        const char* s1 = "namespace Fake { class Impostor { void bad() {";
        const char* s2 = "} } } closing braces that would close Widget";
        const char* s3 = "char c = '{'; more = '}';";
        char brace_open  = '{';
        char brace_close = '}';
        NEEDLE_A();
    }

    void clean() {
        NEEDLE_B();
    }
};
"#;
    let rule_a = make_rule("NEEDLE_A", "Widget::tricky", SearchTarget::All);
    let rule_b = make_rule("NEEDLE_B", "Widget::clean",  SearchTarget::All);
    let ms = run(src, &[rule_a, rule_b]);

    assert_eq!(ms.len(), 2, "expected both methods to be found");
    assert_eq!(ms[0].scope_path, vec!["Widget", "tricky"]);
    assert_eq!(ms[0].context, MatchContext::Code);
    assert_eq!(ms[1].scope_path, vec!["Widget", "clean"]);
    assert_eq!(ms[1].context, MatchContext::Code);
}

#[test]
fn braces_inside_comments_dont_affect_scope() {
    let src = r#"
namespace NS {
class Safe {
public:
    void method() {
        // { { { fake opens  — namespace Ghost { class Phantom {
        /* closing: } } }
           more opens: { { {
           method() } end */
        // if (x) { for (;;) { while (1) {
        NEEDLE_A();
    }

    // } this closing brace is in a comment and must not close Safe
    void also_fine() {
        NEEDLE_B();
    }
};
}
"#;
    let rule_a = make_rule("NEEDLE_A", "NS::Safe::method",    SearchTarget::All);
    let rule_b = make_rule("NEEDLE_B", "NS::Safe::also_fine", SearchTarget::All);
    let ms = run(src, &[rule_a, rule_b]);

    assert_eq!(ms.len(), 2, "both methods must be reachable");
    assert_eq!(ms[0].scope_path, vec!["NS", "Safe", "method"]);
    assert_eq!(ms[1].scope_path, vec!["NS", "Safe", "also_fine"]);
}

#[test]
fn deeply_nested_parens_in_function_signature() {
    let src = r#"
namespace NS {
class Widget {
public:
    void process(
        std::function<void(std::function<int(int, std::string)>)> cb,
        std::map<std::string, std::vector<std::pair<int, int>>>   data,
        int (*raw_fp)(int (*)(int))
    ) {
        NEEDLE();
    }
};
}
"#;
    let ms = run_single(src, "NS::Widget::process", "NEEDLE");
    assert_eq!(ms.len(), 1, "method with deeply nested signature must be found");
    assert_eq!(ms[0].scope_path, vec!["NS", "Widget", "process"]);
}

#[test]
fn combined_delimiter_chaos() {
    let src = r#"
namespace Outer {
class C1 {
public:
    // { looks like scope open; so does the next comment: namespace Fake {
    /* and this one closes nothing: } } }
       multi-line block with { { { many } } } braces } */
    void chaos(
        std::function<void(std::function<int(int)>)> cb
    ) {
        // { more fake opens } and (fake parens (nested (deeply)))
        std::string s = "} } } { class Fake { void impostor() { } } }";
        char brace_open  = '{';
        char brace_close = '}';
        char paren_open  = '(';
        char paren_close = ')';
        /* block: { { ( ) } } */
        NEEDLE_A();
    }

    void after_chaos() {
        NEEDLE_B();
    }
};
}
"#;
    let rule_a = make_rule("NEEDLE_A", "Outer::C1::chaos",       SearchTarget::All);
    let rule_b = make_rule("NEEDLE_B", "Outer::C1::after_chaos", SearchTarget::All);
    let ms = run(src, &[rule_a, rule_b]);

    assert_eq!(ms.len(), 2, "both methods must survive the delimiter chaos");
    assert_eq!(ms[0].scope_path, vec!["Outer", "C1", "chaos"]);
    assert_eq!(ms[0].context, MatchContext::Code);
    assert_eq!(ms[1].scope_path, vec!["Outer", "C1", "after_chaos"]);
    assert_eq!(ms[1].context, MatchContext::Code);
}

// -----------------------------------------------------------------------
// Chain tests
// -----------------------------------------------------------------------

/// Trigger A must be followed by B in the same method → one match.
#[test]
fn chain_after_fires_when_both_present() {
    let src = "class C { public: void f() { foo(); bar(); } };\n";
    let rule = make_chained_rule("foo", "C::f", vec![("bar", ChainRelationship::After)]);
    let ms = run(src, &[rule]);
    assert_eq!(ms.len(), 1);
    assert_eq!(ms[0].matched_text, "foo");
}

/// A is present but B does not follow → no match.
#[test]
fn chain_after_suppressed_when_consequent_absent() {
    let src = "class C { public: void f() { foo(); baz(); } };\n";
    let rule = make_chained_rule("foo", "C::f", vec![("bar", ChainRelationship::After)]);
    assert_eq!(run(src, &[rule]).len(), 0);
}

/// B appears before A (wrong order) → `after` chain not satisfied.
#[test]
fn chain_after_suppressed_when_consequent_only_before() {
    let src = "class C { public: void f() { bar(); foo(); } };\n";
    let rule = make_chained_rule("foo", "C::f", vec![("bar", ChainRelationship::After)]);
    assert_eq!(run(src, &[rule]).len(), 0);
}

/// `before` relationship: B must appear before A.
#[test]
fn chain_before_fires_when_antecedent_present() {
    let src = "class C { public: void f() { bar(); foo(); } };\n";
    let rule = make_chained_rule("foo", "C::f", vec![("bar", ChainRelationship::Before)]);
    let ms = run(src, &[rule]);
    assert_eq!(ms.len(), 1);
}

/// `before` suppressed when antecedent appears only after.
#[test]
fn chain_before_suppressed_when_antecedent_only_after() {
    let src = "class C { public: void f() { foo(); bar(); } };\n";
    let rule = make_chained_rule("foo", "C::f", vec![("bar", ChainRelationship::Before)]);
    assert_eq!(run(src, &[rule]).len(), 0);
}

/// `anywhere_in_method` fires regardless of order.
#[test]
fn chain_anywhere_in_method_ignores_order() {
    // bar after foo
    let src1 = "class C { public: void f() { foo(); bar(); } };\n";
    // bar before foo
    let src2 = "class C { public: void f() { bar(); foo(); } };\n";

    let rule1 = make_chained_rule("foo", "C::f", vec![("bar", ChainRelationship::AnywhereInMethod)]);
    let rule2 = make_chained_rule("foo", "C::f", vec![("bar", ChainRelationship::AnywhereInMethod)]);

    assert_eq!(run(src1, &[rule1]).len(), 1);
    assert_eq!(run(src2, &[rule2]).len(), 1);
}

/// `anywhere_in_class`: trigger in method1, chain in method2 → match.
#[test]
fn chain_anywhere_in_class_crosses_methods() {
    let src = r#"
class MyClass {
public:
    void method1() { foo(); }
    void method2() { bar(); }
};
"#;
    let rule = make_chained_rule("foo", "MyClass::method1",
        vec![("bar", ChainRelationship::AnywhereInClass)]);
    let ms = run(src, &[rule]);
    assert_eq!(ms.len(), 1, "should find foo because bar exists elsewhere in class");
}

/// `anywhere_in_class` suppressed when chain pattern is absent from class.
#[test]
fn chain_anywhere_in_class_suppressed_when_absent() {
    let src = r#"
class MyClass {
public:
    void method1() { foo(); }
    void method2() { baz(); }
};
"#;
    let rule = make_chained_rule("foo", "MyClass::method1",
        vec![("bar", ChainRelationship::AnywhereInClass)]);
    assert_eq!(run(src, &[rule]).len(), 0);
}

/// `anywhere_in_namespace`: trigger in Class1, chain in Class2 → match.
#[test]
fn chain_anywhere_in_namespace_crosses_classes() {
    let src = r#"
namespace NS {
class Class1 { public: void f() { foo(); } };
class Class2 { public: void g() { bar(); } };
}
"#;
    let rule = make_chained_rule("foo", "NS::Class1::f",
        vec![("bar", ChainRelationship::AnywhereInNamespace)]);
    let ms = run(src, &[rule]);
    assert_eq!(ms.len(), 1, "should match because bar exists in the same namespace");
}

/// `anywhere_in_namespace` suppressed when chain absent from namespace.
#[test]
fn chain_anywhere_in_namespace_suppressed_when_absent() {
    let src = r#"
namespace NS {
class Class1 { public: void f() { foo(); } };
class Class2 { public: void g() { baz(); } };
}
"#;
    let rule = make_chained_rule("foo", "NS::Class1::f",
        vec![("bar", ChainRelationship::AnywhereInNamespace)]);
    assert_eq!(run(src, &[rule]).len(), 0);
}

/// Multiple chain conditions: ALL must be satisfied.
#[test]
fn chain_multi_condition_all_required() {
    let src_all = "class C { public: void f() { foo(); step1(); step2(); } };\n";
    let src_missing_step2 = "class C { public: void f() { foo(); step1(); } };\n";

    let rule_all = make_chained_rule("foo", "C::f", vec![
        ("step1", ChainRelationship::After),
        ("step2", ChainRelationship::After),
    ]);
    let rule_missing = make_chained_rule("foo", "C::f", vec![
        ("step1", ChainRelationship::After),
        ("step2", ChainRelationship::After),
    ]);

    assert_eq!(run(src_all,          &[rule_all]).len(),     1, "all conditions present → match");
    assert_eq!(run(src_missing_step2, &[rule_missing]).len(), 0, "missing step2 → no match");
}

// -----------------------------------------------------------------------
// Negated chain tests
// -----------------------------------------------------------------------

/// negate=true fires when the chain pattern is *absent* from the search range.
#[test]
fn chain_negate_fires_when_pattern_absent() {
    let src = "class C { public: void f() { foo(); } };\n";
    let rule = make_chained_rule_neg("foo", "C::f",
        vec![("bar", ChainRelationship::AnywhereInMethod, true)]);
    let ms = run(src, &[rule]);
    assert_eq!(ms.len(), 1, "negate chain should fire when pattern is absent");
}

/// negate=true is suppressed when the chain pattern *is* present.
#[test]
fn chain_negate_suppressed_when_pattern_present() {
    let src = "class C { public: void f() { foo(); bar(); } };\n";
    let rule = make_chained_rule_neg("foo", "C::f",
        vec![("bar", ChainRelationship::AnywhereInMethod, true)]);
    let ms = run(src, &[rule]);
    assert_eq!(ms.len(), 0, "negate chain should be suppressed when pattern is present");
}

/// negate=true with anywhere_in_class: fires when the pattern is absent from the
/// entire class body (not just the current method).
#[test]
fn chain_negate_anywhere_in_class_fires_when_absent() {
    let src = r#"
class MyClass {
public:
    void method1() { trigger(); }
    void method2() { unrelated(); }
};
"#;
    let rule = make_chained_rule_neg("trigger", "MyClass::method1",
        vec![("guard_call", ChainRelationship::AnywhereInClass, true)]);
    let ms = run(src, &[rule]);
    assert_eq!(ms.len(), 1, "guard absent from whole class → should fire");
}

/// negate=true with anywhere_in_class: suppressed when pattern appears in a
/// *different* method of the same class.
#[test]
fn chain_negate_anywhere_in_class_suppressed_by_other_method() {
    let src = r#"
class MyClass {
public:
    void method1() { trigger(); }
    void method2() { guard_call(); }
};
"#;
    let rule = make_chained_rule_neg("trigger", "MyClass::method1",
        vec![("guard_call", ChainRelationship::AnywhereInClass, true)]);
    let ms = run(src, &[rule]);
    assert_eq!(ms.len(), 0, "guard present elsewhere in class → should suppress");
}

// -----------------------------------------------------------------------
// AnywhereInStatement tests
// -----------------------------------------------------------------------

/// Chain pattern present in the same statement as the trigger → fires.
#[test]
fn anywhere_in_statement_fires_when_pattern_in_same_statement() {
    // Both TRIGGER and GUARD are inside the same UFUNCTION()-style declaration,
    // before the first semicolon.
    let src = "class C {\n    UFUNCTION(TRIGGER, GUARD)\n    void Rpc();\n};\n";
    let rule = make_chained_rule("TRIGGER", "**",
        vec![("GUARD", ChainRelationship::AnywhereInStatement)]);
    let ms = run(src, &[rule]);
    assert_eq!(ms.len(), 1);
}

/// Chain pattern is in a *different* statement — must not fire.
#[test]
fn anywhere_in_statement_isolated_to_current_statement() {
    // GUARD appears only in the second declaration, not the first.
    let src = "class C {\n    UFUNCTION(TRIGGER)\n    void RpcA();\n    UFUNCTION(GUARD)\n    void RpcB();\n};\n";
    let rule = make_chained_rule("TRIGGER", "**",
        vec![("GUARD", ChainRelationship::AnywhereInStatement)]);
    let ms = run(src, &[rule]);
    assert_eq!(ms.len(), 0, "GUARD in a different statement must not satisfy the chain");
}

/// Simulates the UE5 Server RPC use-case: per-declaration WithValidation detection.
/// The first RPC has no WithValidation → negate chain fires.
/// The second RPC has WithValidation → negate chain is suppressed.
#[test]
fn anywhere_in_statement_negate_per_declaration_ue5_style() {
    let src = "class AMyActor {\npublic:\n    UFUNCTION(Server, Reliable)\n    void RpcNoValidation(float Value);\n    UFUNCTION(Server, Reliable, WithValidation)\n    void RpcWithValidation(float Value);\n};\n";
    let rule = make_chained_rule_neg("Server", "**",
        vec![("WithValidation", ChainRelationship::AnywhereInStatement, true)]);
    let ms = run(src, &[rule]);
    assert_eq!(ms.len(), 1, "only the RPC without WithValidation should fire");
    assert!(ms[0].matched_text == "Server");
    // Verify it matched in the first declaration (line 3), not the second (line 5)
    assert_eq!(ms[0].line, 3);
}

/// A brace boundary (method body open) also terminates the statement window.
#[test]
fn anywhere_in_statement_stops_at_brace() {
    // GUARD is inside the function body (after `{`), not in the same statement
    // as the TRIGGER in the signature.
    let src = "class C {\npublic:\n    void Method(TRIGGER arg) {\n        GUARD();\n    }\n};\n";
    let rule = make_chained_rule("TRIGGER", "**",
        vec![("GUARD", ChainRelationship::AnywhereInStatement)]);
    let ms = run(src, &[rule]);
    assert_eq!(ms.len(), 0, "GUARD inside the body brace is outside the statement window");
}

// -----------------------------------------------------------------------
// Go
// -----------------------------------------------------------------------

/// Plain top-level function: `func Name(args) { }` → Function("Name").
#[test]
fn go_named_function_correct_scope_path() {
    let src = "package main\n\nfunc Greet(name string) {\n    NEEDLE()\n}\n";
    let ms = run_single_lang(src, "**::Greet", "NEEDLE", "go");
    assert_eq!(ms.len(), 1);
    assert_eq!(ms[0].scope_path, vec!["Greet"]);
}

/// Receiver method: `func (w *Widget) Render() { }` — receiver group skipped,
/// name is the word after the closing `)`.
#[test]
fn go_receiver_method_name_resolved() {
    let src = "type Widget struct { X int }\n\nfunc (w *Widget) Render() {\n    NEEDLE()\n}\n";
    let ms = run_single_lang(src, "**::Render", "NEEDLE", "go");
    assert_eq!(ms.len(), 1);
    assert_eq!(ms[0].scope_path, vec!["Render"]);
}

/// `type Config struct { }` — name precedes the keyword; look-back heuristic
/// must resolve the struct name to "Config" so the scope filter can match it.
#[test]
fn go_struct_name_before_keyword_resolved() {
    let src = "type Config struct {\n    NEEDLE_FIELD string\n}\n";
    let ms = run_single_lang(src, "**::Config", "NEEDLE_FIELD", "go");
    assert_eq!(ms.len(), 1, "struct should be named Config via look-back heuristic");
    assert_eq!(ms[0].scope_path, vec!["Config"]);
}

/// Same look-back for interfaces: `type Reader interface { }`.
#[test]
fn go_interface_name_before_keyword_resolved() {
    let src = "type Reader interface {\n    NEEDLE_METHOD() []byte\n}\n";
    let ms = run_single_lang(src, "**::Reader", "NEEDLE_METHOD", "go");
    assert_eq!(ms.len(), 1);
    assert_eq!(ms[0].scope_path, vec!["Reader"]);
}

/// Backtick raw strings may contain `{` and `}` — without lexer support these
/// would push/pop phantom scope frames and corrupt the parser state.
#[test]
fn go_backtick_raw_string_doesnt_corrupt_scope() {
    let src = "package main\n\nfunc outer() {\n    q := `SELECT * FROM t WHERE id > 0 AND { x = 1 }`\n    NEEDLE()\n}\n\nfunc after() {\n    NEEDLE_B()\n}\n";
    let rule_a = make_rule("NEEDLE",   "**::outer", SearchTarget::All);
    let rule_b = make_rule("NEEDLE_B", "**::after", SearchTarget::All);
    let ms = run_for_lang(src, &[rule_a, rule_b], "go");
    assert_eq!(ms.len(), 2, "backtick brace must not corrupt parser state");
    assert_eq!(ms[0].scope_path, vec!["outer"]);
    assert_eq!(ms[1].scope_path, vec!["after"]);
}

// -----------------------------------------------------------------------
// Rust
// -----------------------------------------------------------------------

/// `mod` maps to Namespace; `fn` introduces functions.
#[test]
fn rust_mod_and_fn() {
    let src = "mod mymod {\n    fn helper() {\n        NEEDLE()\n    }\n}\n";
    let ms = run_single_lang(src, "mymod::helper", "NEEDLE", "rs");
    assert_eq!(ms.len(), 1);
    assert_eq!(ms[0].scope_path, vec!["mymod", "helper"]);
}

/// `impl` maps to Class; method inside uses `fn`.
#[test]
fn rust_impl_and_fn() {
    let src = "struct Counter { value: i32 }\n\nimpl Counter {\n    fn increment(&mut self) {\n        NEEDLE()\n    }\n}\n";
    let ms = run_single_lang(src, "Counter::increment", "NEEDLE", "rs");
    assert_eq!(ms.len(), 1);
    assert_eq!(ms[0].scope_path, vec!["Counter", "increment"]);
}

/// `trait` maps to Interface; default method body is scannable.
#[test]
fn rust_trait_default_method() {
    let src = "trait Drawable {\n    fn draw(&self) {\n        NEEDLE()\n    }\n}\n";
    let ms = run_single_lang(src, "Drawable::draw", "NEEDLE", "rs");
    assert_eq!(ms.len(), 1);
    assert_eq!(ms[0].scope_path, vec!["Drawable", "draw"]);
}

/// Nested `mod` blocks produce deep scope paths.
#[test]
fn rust_nested_mods() {
    let src = "mod outer {\n    mod inner {\n        fn leaf() {\n            NEEDLE()\n        }\n    }\n}\n";
    let ms = run_single_lang(src, "outer::inner::leaf", "NEEDLE", "rs");
    assert_eq!(ms.len(), 1);
    assert_eq!(ms[0].scope_path, vec!["outer", "inner", "leaf"]);
}

// -----------------------------------------------------------------------
// Swift
// -----------------------------------------------------------------------

#[test]
fn swift_class_and_func() {
    let src = "class Vehicle {\n    func start() {\n        NEEDLE()\n    }\n}\n";
    let ms = run_single_lang(src, "Vehicle::start", "NEEDLE", "swift");
    assert_eq!(ms.len(), 1);
    assert_eq!(ms[0].scope_path, vec!["Vehicle", "start"]);
}

#[test]
fn swift_struct_and_func() {
    let src = "struct Point {\n    func distance() -> Double {\n        NEEDLE()\n    }\n}\n";
    let ms = run_single_lang(src, "Point::distance", "NEEDLE", "swift");
    assert_eq!(ms.len(), 1);
    assert_eq!(ms[0].scope_path, vec!["Point", "distance"]);
}

/// `protocol` maps to Interface.
#[test]
fn swift_protocol_and_func() {
    let src = "protocol Drawable {\n    func draw() {\n        NEEDLE()\n    }\n}\n";
    let ms = run_single_lang(src, "Drawable::draw", "NEEDLE", "swift");
    assert_eq!(ms.len(), 1);
    assert_eq!(ms[0].scope_path, vec!["Drawable", "draw"]);
}

/// `extension` maps to Class — lets rules target retroactively-added methods.
#[test]
fn swift_extension_and_func() {
    let src = "extension String {\n    func shout() -> String {\n        NEEDLE()\n    }\n}\n";
    let ms = run_single_lang(src, "String::shout", "NEEDLE", "swift");
    assert_eq!(ms.len(), 1);
    assert_eq!(ms[0].scope_path, vec!["String", "shout"]);
}

// -----------------------------------------------------------------------
// Kotlin
// -----------------------------------------------------------------------

#[test]
fn kotlin_class_and_fun() {
    let src = "class Calculator {\n    fun add(a: Int, b: Int): Int {\n        NEEDLE()\n    }\n}\n";
    let ms = run_single_lang(src, "Calculator::add", "NEEDLE", "kt");
    assert_eq!(ms.len(), 1);
    assert_eq!(ms[0].scope_path, vec!["Calculator", "add"]);
}

/// `object` declarations are singleton classes in Kotlin.
#[test]
fn kotlin_object_declaration() {
    let src = "object Logger {\n    fun log(msg: String) {\n        NEEDLE()\n    }\n}\n";
    let ms = run_single_lang(src, "Logger::log", "NEEDLE", "kt");
    assert_eq!(ms.len(), 1);
    assert_eq!(ms[0].scope_path, vec!["Logger", "log"]);
}

#[test]
fn kotlin_interface_default_method() {
    let src = "interface Printable {\n    fun print() {\n        NEEDLE()\n    }\n}\n";
    let ms = run_single_lang(src, "Printable::print", "NEEDLE", "kt");
    assert_eq!(ms.len(), 1);
    assert_eq!(ms[0].scope_path, vec!["Printable", "print"]);
}

// -----------------------------------------------------------------------
// Java
// -----------------------------------------------------------------------

/// Java has no brace-delimited namespace; classes are the outermost named scope.
#[test]
fn java_class_and_method() {
    let src = "public class Calculator {\n    public int add(int a, int b) {\n        NEEDLE();\n        return a + b;\n    }\n}\n";
    let ms = run_single_lang(src, "Calculator::add", "NEEDLE", "java");
    assert_eq!(ms.len(), 1);
    assert_eq!(ms[0].scope_path, vec!["Calculator", "add"]);
}

#[test]
fn java_interface_default_method() {
    let src = "public interface Drawable {\n    default void draw() {\n        NEEDLE();\n    }\n}\n";
    let ms = run_single_lang(src, "Drawable::draw", "NEEDLE", "java");
    assert_eq!(ms.len(), 1);
    assert_eq!(ms[0].scope_path, vec!["Drawable", "draw"]);
}

/// Enum with a method body — the semicolon after the constants clears the header
/// so the method declaration is classified normally.
#[test]
fn java_enum_with_method() {
    let src = "public enum Status {\n    ACTIVE, INACTIVE;\n    public String display() {\n        NEEDLE();\n        return name();\n    }\n}\n";
    let ms = run_single_lang(src, "Status::display", "NEEDLE", "java");
    assert_eq!(ms.len(), 1);
    assert_eq!(ms[0].scope_path, vec!["Status", "display"]);
}

#[test]
fn java_nested_classes() {
    let src = "public class Outer {\n    public class Inner {\n        public void method() {\n            NEEDLE();\n        }\n    }\n}\n";
    let ms = run_single_lang(src, "Outer::Inner::method", "NEEDLE", "java");
    assert_eq!(ms.len(), 1);
    assert_eq!(ms[0].scope_path, vec!["Outer", "Inner", "method"]);
}

// -----------------------------------------------------------------------
// C#
// -----------------------------------------------------------------------

/// C# keeps `namespace` as a brace scope, unlike Java.
#[test]
fn csharp_namespace_class_method() {
    let src = "namespace MyApp {\n    public class Service {\n        public void Execute() {\n            NEEDLE();\n        }\n    }\n}\n";
    let ms = run_single_lang(src, "MyApp::Service::Execute", "NEEDLE", "cs");
    assert_eq!(ms.len(), 1);
    assert_eq!(ms[0].scope_path, vec!["MyApp", "Service", "Execute"]);
}

/// C# 9+ `record` keyword maps to Class, so methods inside are reachable.
#[test]
fn csharp_record_method() {
    let src = "namespace MyApp {\n    public record Point(int X, int Y) {\n        public double Length() {\n            NEEDLE();\n            return 0.0;\n        }\n    }\n}\n";
    let ms = run_single_lang(src, "MyApp::Point::Length", "NEEDLE", "cs");
    assert_eq!(ms.len(), 1);
    assert_eq!(ms[0].scope_path, vec!["MyApp", "Point", "Length"]);
}

// -----------------------------------------------------------------------
// Multiline regex
// -----------------------------------------------------------------------

/// Explicit `\n` in pattern matches a SQL-style query spanning two lines.
/// This works without `multiline = true` because the scope body is searched
/// as a single byte slice (no line terminator restriction in the grep crate).
#[test]
fn multiline_explicit_newline_fires() {
    // SELECT and FROM are on separate lines in actual code (not inside a string).
    let src = "class Dao {\n    void query() {\n        SELECT id,\n        FROM users;\n    }\n};\n";
    // Pattern with explicit \n — no dot_matches_new_line needed.
    let rule = Rule {
        name: "sql_select".to_string(),
        matcher: RegexMatcherBuilder::new()
            .build(r"\bSELECT\b[^\n]*\n[^\n]*\bFROM\b")
            .unwrap(),
        scope_filter: None,
        message: "raw SQL".to_string(),
        severity: Severity::Warning,
        search_target: SearchTarget::All,
        chain: vec![],
    };
    let ms = run(src, &[rule]);
    assert_eq!(ms.len(), 1);
    assert!(ms[0].matched_text.contains("SELECT") && ms[0].matched_text.contains("FROM"),
        "matched_text should span both keywords: {:?}", ms[0].matched_text);
}

/// With `dot_matches_new_line = true` (enabled by `multiline = true` in TOML),
/// a pattern using plain `.` can match across newlines.
#[test]
fn multiline_dot_matches_newline_fires() {
    let src = "class Dao {\n    void query() {\n        db.exec(SELECT_TOKEN);\n        // FROM_TOKEN referenced here\n    }\n};\n";
    let rule = Rule {
        name: "sql_dotall".to_string(),
        matcher: RegexMatcherBuilder::new()
            .multi_line(true)
            .dot_matches_new_line(true)
            .build(r"\bSELECT_TOKEN\b.+\bFROM_TOKEN\b")
            .unwrap(),
        scope_filter: None,
        message: "raw SQL".to_string(),
        severity: Severity::Warning,
        search_target: SearchTarget::All,
        chain: vec![],
    };
    let ms = run(src, &[rule]);
    assert_eq!(ms.len(), 1);
    assert!(ms[0].matched_text.contains("SELECT_TOKEN") && ms[0].matched_text.contains("FROM_TOKEN"));
}

/// A multiline match's snippet covers all spanned lines.
#[test]
fn multiline_snippet_spans_matched_lines() {
    // Two-line match: SELECT on line 3, FROM on line 4.
    let src = "class Dao {\n    void query() {\n        SELECT id,\n        FROM users;\n    }\n};\n";
    let rule = Rule {
        name: "sql_select".to_string(),
        matcher: RegexMatcherBuilder::new()
            .multi_line(true)
            .dot_matches_new_line(true)
            .build(r"\bSELECT\b.+\bFROM\b")
            .unwrap(),
        scope_filter: None,
        message: "raw SQL".to_string(),
        severity: Severity::Warning,
        search_target: SearchTarget::All,
        chain: vec![],
    };
    let ms = run(src, &[rule]);
    assert_eq!(ms.len(), 1);
    // Snippet must contain both lines.
    assert!(ms[0].snippet.contains("SELECT"), "snippet missing SELECT: {:?}", ms[0].snippet);
    assert!(ms[0].snippet.contains("FROM"),   "snippet missing FROM: {:?}", ms[0].snippet);
}

/// within_lines: chain fires when the companion pattern is within the line window.
#[test]
fn within_lines_fires_when_companion_close() {
    // WHERE appears 2 lines after SET — within_lines = 3 should fire.
    let src = "class Dao {\n    void q() {\n        UPDATE users\n        SET name = ?\n        WHERE id = ?;\n    }\n};\n";
    let rule = Rule {
        name: "upd".to_string(),
        matcher: RegexMatcherBuilder::new().build(r"\bUPDATE\b").unwrap(),
        scope_filter: None,
        message: "t".to_string(),
        severity: Severity::Warning,
        search_target: SearchTarget::All,
        chain: vec![ChainedPattern {
            matcher: RegexMatcherBuilder::new().build(r"\bWHERE\b").unwrap(),
            relationship: ChainRelationship::After,
            negate: false,
            within_lines: Some(3),
        }],
    };
    assert_eq!(run(src, &[rule]).len(), 1);
}

/// within_lines: chain suppressed when companion is beyond the line window.
#[test]
fn within_lines_suppressed_when_companion_too_far() {
    // WHERE appears 6 lines after SET — within_lines = 3 should suppress.
    let src = "class Dao {\n    void q() {\n        UPDATE users\n        SET a = 1,\n        b = 2,\n        c = 3,\n        d = 4\n        WHERE id = ?;\n    }\n};\n";
    let rule = Rule {
        name: "upd".to_string(),
        matcher: RegexMatcherBuilder::new().build(r"\bUPDATE\b").unwrap(),
        scope_filter: None,
        message: "t".to_string(),
        severity: Severity::Warning,
        search_target: SearchTarget::All,
        chain: vec![ChainedPattern {
            matcher: RegexMatcherBuilder::new().build(r"\bWHERE\b").unwrap(),
            relationship: ChainRelationship::After,
            negate: false,
            within_lines: Some(3),
        }],
    };
    assert_eq!(run(src, &[rule]).len(), 0);
}

/// within_lines: companion present but source ends before the window is exhausted.
/// Must not panic or miss the match when fewer than N lines remain after the trigger.
#[test]
fn within_lines_fires_at_end_of_source() {
    // WHERE is 1 line after UPDATE but the file ends immediately after — within_lines=5.
    let src = "class Dao {\n    void q() {\n        UPDATE t SET x = 1\n        WHERE id = 1;\n    }\n};\n";
    let rule = Rule {
        name: "upd".to_string(),
        matcher: RegexMatcherBuilder::new().build(r"\bUPDATE\b").unwrap(),
        scope_filter: None,
        message: "t".to_string(),
        severity: Severity::Warning,
        search_target: SearchTarget::All,
        chain: vec![ChainedPattern {
            matcher: RegexMatcherBuilder::new().build(r"\bWHERE\b").unwrap(),
            relationship: ChainRelationship::After,
            negate: false,
            within_lines: Some(5),  // more lines than exist after trigger
        }],
    };
    assert_eq!(run(src, &[rule]).len(), 1, "should fire even when window exceeds remaining source");
}

/// within_lines: negate fires when companion absent and window hits end of source.
#[test]
fn within_lines_negate_at_end_of_source() {
    let src = "class Dao {\n    void q() {\n        DELETE FROM t;\n    }\n};\n";
    let rule = Rule {
        name: "del".to_string(),
        matcher: RegexMatcherBuilder::new().build(r"\bDELETE\b").unwrap(),
        scope_filter: None,
        message: "t".to_string(),
        severity: Severity::Warning,
        search_target: SearchTarget::All,
        chain: vec![ChainedPattern {
            matcher: RegexMatcherBuilder::new().build(r"\bWHERE\b").unwrap(),
            relationship: ChainRelationship::After,
            negate: true,
            within_lines: Some(10),
        }],
    };
    assert_eq!(run(src, &[rule]).len(), 1, "negate should fire when WHERE absent within window");
}

/// A single-line match snippet is that line alone.
#[test]
fn singleline_snippet_unchanged() {
    let src = "class Foo {\n    void bar() { NEEDLE(); }\n};\n";
    let ms = run_single(src, "Foo::bar", "NEEDLE");
    assert_eq!(ms.len(), 1);
    assert!(!ms[0].snippet.contains('\n'), "single-line snippet should have no newlines");
    assert!(ms[0].snippet.contains("NEEDLE"));
}

/// Snippets from huge single lines (e.g. minified JS) are trimmed to a
/// window around the match and never exceed ~300 bytes.
#[test]
fn large_line_snippet_is_trimmed() {
    // Build a single massive line: 1500 chars of 'a', then NEEDLE, then 1500 chars of 'b'.
    // Wrap in a minimal class+method so the engine produces a match.
    let pad_a = "a".repeat(1500);
    let pad_b = "b".repeat(1500);
    let inner = format!("{pad_a}NEEDLE(){pad_b}");
    let src = format!("class F {{\n    void g() {{ {inner} }}\n}};\n");

    let ms = run_single(&src, "F::g", "NEEDLE");
    assert_eq!(ms.len(), 1, "should match once");

    let snip = &ms[0].snippet;
    // Must be well under the 2 KB threshold (the raw line is ~3 KB).
    assert!(
        snip.len() < 400,
        "trimmed snippet too long ({} bytes): {snip:.80}…",
        snip.len()
    );
    // The match itself must still be present.
    assert!(snip.contains("NEEDLE"), "snippet missing NEEDLE: {snip}");
    // Ellipsis markers indicate truncation on both sides.
    assert!(snip.starts_with('…'), "expected leading ellipsis, got: {snip:.40}");
    assert!(snip.ends_with('…'), "expected trailing ellipsis, got: …{}", &snip[snip.len().saturating_sub(40)..]);
}

/// Lines just under 2 KB are returned verbatim (no spurious trimming).
#[test]
fn line_under_threshold_not_trimmed() {
    // 2000 chars total: pad + NEEDLE + pad, no ellipsis expected.
    let pad = "x".repeat(996);
    let inner = format!("{pad}NEEDLE(){pad}");
    assert!(inner.len() < 2048, "precondition: inner line under threshold");
    let src = format!("class F {{\n    void g() {{ {inner} }}\n}};\n");

    let ms = run_single(&src, "F::g", "NEEDLE");
    assert_eq!(ms.len(), 1);
    let snip = &ms[0].snippet;
    assert!(!snip.starts_with('…'), "should not trim a line under threshold");
    assert!(!snip.ends_with('…'), "should not trim a line under threshold");
    assert!(snip.contains("NEEDLE"));
}

// -----------------------------------------------------------------------
// Claims, targets and options
// -----------------------------------------------------------------------

fn compiled(pattern: &str, change: fn(&mut RuleConfig)) -> Rule {
    let mut c = RuleConfig {
        name: "r".to_string(),
        pattern: pattern.to_string(),
        scope: Some("**".to_string()),
        message: "m".to_string(),
        severity: Severity::Info,
        case_insensitive: false,
        word: false,
        multiline: false,
        search: SearchTarget::All,
        chain: vec![],
    };
    change(&mut c);
    compile_rule(&c).ok().unwrap()
}

fn starts(source: &str, rule: Rule) -> Vec<(usize, usize)> {
    run(source, &[rule]).iter().map(|m| (m.line, m.column)).collect()
}

#[test]
fn contexts_have_names() {
    assert_eq!(MatchContext::Code.as_str(), "code");
    assert_eq!(MatchContext::Comment.as_str(), "comment");
    assert_eq!(MatchContext::StringLiteral.as_str(), "string");
}

#[test]
fn position_is_reported_once_and_for_the_innermost_scope() {
    let src = "class A { void f() { X(); } int x = X; };\nX";
    let ms = run_single(src, "**", "X");
    let paths: Vec<Vec<String>> = ms.iter().map(|m| m.scope_path.clone()).collect();
    assert_eq!(paths, vec![vec!["A".to_string(), "f".to_string()], vec!["A".to_string()], vec![]]);
}

#[test]
fn searched_scope_skips_scopes_it_leaves_out() {
    let src = "class A { void f() { X(); } int x = X; };\nX";
    let ms = run_single(src, "A", "X");
    assert_eq!(ms.len(), 2);
    assert!(ms.iter().all(|m| m.scope_path == vec!["A"]));
}

#[test]
fn without_a_filter_only_named_scopes_are_searched() {
    let mut rule = make_rule("X", "**", SearchTarget::All);
    rule.scope_filter = None;
    let ms = run("X; class A { X; };", &[rule]);
    assert_eq!(ms.len(), 1);
    assert_eq!(ms[0].scope_path, vec!["A"]);
}

#[test]
fn targets_select_the_bytes() {
    let src = "void f() { X; /* X */ s = \"X\"; }";
    let all = run(src, &[make_rule("X", "f", SearchTarget::All)]);
    let contexts: Vec<MatchContext> = all.iter().map(|m| m.context).collect();
    assert_eq!(
        contexts,
        vec![MatchContext::Code, MatchContext::Comment, MatchContext::StringLiteral]
    );
    let code = run(src, &[make_rule("X", "f", SearchTarget::Code)]);
    assert_eq!(code.len(), 1);
    assert_eq!(code[0].column, 12);
    let comments = run(src, &[make_rule("X", "f", SearchTarget::Comments)]);
    assert_eq!(comments.len(), 1);
    assert_eq!(comments[0].column, 18);
    assert_eq!(comments[0].context, MatchContext::Comment);
}

#[test]
fn code_matches_do_not_cross_comments() {
    let src = "void f() { a/**/b; }";
    assert_eq!(run(src, &[make_rule("a.*b", "f", SearchTarget::Code)]).len(), 0);
    assert_eq!(run(src, &[make_rule("a.*b", "f", SearchTarget::All)]).len(), 1);
}

#[test]
fn rules_do_not_affect_each_other() {
    let src = "void f() { X(); }";
    let one = run(src, &[make_rule("X", "f", SearchTarget::All)]);
    let two = run(
        src,
        &[make_rule("X", "f", SearchTarget::All), make_rule("X", "**", SearchTarget::All)],
    );
    assert_eq!(one.len(), 1);
    assert_eq!(two.len(), 2);
    assert_eq!(two[0].column, two[1].column);
}

#[test]
fn report_carries_rule_and_place() {
    let ms = run("void f() {\n  X(1);\n}", &[make_rule("X\\(1", "f", SearchTarget::All)]);
    assert_eq!(ms[0].rule_name, "test");
    assert_eq!(ms[0].file, "test.cpp");
    assert_eq!((ms[0].line, ms[0].column), (2, 3));
    assert_eq!(ms[0].matched_text, "X(1");
    assert_eq!(ms[0].snippet, "X(1);");
    assert_eq!(ms[0].ai_snippet, "X(1);");
    assert!(ms[0].ai_verdict.is_none());
}

#[test]
fn pattern_options_are_applied() {
    assert_eq!(starts("ab AB", compiled("ab", |_| {})), vec![(1, 1)]);
    assert_eq!(
        starts("ab AB", compiled("ab", |c| c.case_insensitive = true)),
        vec![(1, 1), (1, 4)]
    );
    assert_eq!(starts("ab xab", compiled("ab", |c| c.word = true)), vec![(1, 1)]);
    assert_eq!(starts("a\nb", compiled("a.b", |_| {})), vec![]);
    assert_eq!(starts("a\nb", compiled("a.b", |c| c.multiline = true)), vec![(1, 1)]);
    assert_eq!(starts("a\nb", compiled("^b", |c| c.multiline = true)), vec![(2, 1)]);
}

#[test]
fn successive_matches_do_not_overlap() {
    assert_eq!(starts("aaaa", compiled("aa", |_| {})), vec![(1, 1), (1, 3)]);
}

#[test]
fn nothing_is_found_in_an_empty_range() {
    let src = "void f() {T}";
    for relationship in [ChainRelationship::After, ChainRelationship::Before] {
        let present = make_chained_rule_neg("T", "f", vec![("x", relationship, false)]);
        assert_eq!(run(src, &[present]).len(), 0);
        let absent = make_chained_rule_neg("T", "f", vec![("x", relationship, true)]);
        assert_eq!(run(src, &[absent]).len(), 1);
    }
}

#[test]
fn negated_entry_holds_behind_the_last_byte_of_a_body() {
    let source = "{foo}";
    let lex = Lexer::new(source, false).tokenize();
    let tree = ScopeParser::new(profile_for_ext("c")).parse(&lex.tokens, source.len());
    let rule = make_chained_rule_neg("foo", "**", vec![("bar", ChainRelationship::After, true)]);
    let ancestors = vec![];
    assert!(chain_satisfied(source, 1, 4, &(1..4), &rule.chain, &tree.children[0], &ancestors, &lex));
}

#[test]
fn missing_scope_fails_the_chain() {
    let src = "void f() { T; }";
    for relationship in [ChainRelationship::AnywhereInClass, ChainRelationship::AnywhereInNamespace] {
        for negate in [false, true] {
            let rule = make_chained_rule_neg("T", "f", vec![("x", relationship, negate)]);
            assert_eq!(run(src, &[rule]).len(), 0);
        }
    }
}

#[test]
fn innermost_scope_decides_on_the_chain() {
    // The chain fails in `f`, in which the trigger is found first, though it would hold in `A`.
    let src = "class A { void f() { T; } int G; };";
    let rule = make_chained_rule("T", "**", vec![("G", ChainRelationship::After)]);
    assert_eq!(run(src, &[rule]).len(), 0);
    let rule = make_chained_rule("T", "A", vec![("G", ChainRelationship::After)]);
    let ms = run(src, &[rule]);
    assert_eq!(ms.len(), 1);
    assert_eq!(ms[0].scope_path, vec!["A"]);
}

#[test]
fn chain_without_a_method_searches_the_scope() {
    let rule = make_chained_rule("T", "A", vec![("G", ChainRelationship::AnywhereInMethod)]);
    assert_eq!(run("class A { T; G; };", &[rule]).len(), 1);
}

#[test]
fn negation_inverts_a_chain_entry() {
    let src = "void f() { T; G; }";
    let plain = make_chained_rule_neg("T", "f", vec![("G", ChainRelationship::After, false)]);
    let negated = make_chained_rule_neg("T", "f", vec![("G", ChainRelationship::After, true)]);
    assert_eq!(run(src, &[plain]).len(), 1);
    assert_eq!(run(src, &[negated]).len(), 0);
}

#[test]
fn match_inside_a_character_is_refused() {
    let source = "void f() { é }";
    let lex = Lexer::new(source, false).tokenize();
    let tree = ScopeParser::new(profile_for_ext("c")).parse(&lex.tokens, source.len());
    let half = make_rule("(?-u)\\xC3", "f", SearchTarget::All);
    assert!(try_scan_file(source, "a.c", &tree, &[half], &lex).is_none());
    let whole = make_rule("é", "f", SearchTarget::All);
    let ms = try_scan_file(source, "a.c", &tree, &[whole], &lex).unwrap();
    assert_eq!(ms[0].matched_text, "é");
}

#[test]
fn claimed_starts_are_left_out() {
    let mut seen = HashSet::new();
    assert_eq!(claim(&vec![(1, 2), (1, 3), (4, 5)], &mut seen), vec![(1, 2), (4, 5)]);
    assert_eq!(claim(&vec![(4, 6), (7, 8)], &mut seen), vec![(7, 8)]);
}

#[test]
fn unchained_rule_reports_every_match_of_its_trigger() {
    let src = "X class A { X void f() { X /* X */ } X }; X";
    let ms = run_single(src, "**", "X");
    let mut found: Vec<usize> = ms.iter().map(|m| m.column - 1).collect();
    found.sort();
    let expected: Vec<usize> = src.match_indices('X').map(|(i, _)| i).collect();
    assert_eq!(found, expected);
}

#[test]
fn chain_needs_all_of_its_entries() {
    let src = "void f() { B; T; A; }";
    let both = vec![("B", ChainRelationship::Before), ("A", ChainRelationship::After)];
    let one = vec![("B", ChainRelationship::Before), ("C", ChainRelationship::After)];
    assert_eq!(run(src, &[make_chained_rule("T", "f", both)]).len(), 1);
    assert_eq!(run(src, &[make_chained_rule("T", "f", one)]).len(), 0);
    assert_eq!(run(src, &[make_chained_rule("T", "f", vec![])]).len(), 1);
}
