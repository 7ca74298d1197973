//! Reports in every format.

use yarecs::engine::{AiVerdict, MatchContext, ScanMatch};
use yarecs::output::{
    csv_field, json_str, sarif_uri, write_results, OutputFormat, ScanMetadata,
};
use yarecs::rules::Severity;

// ── json_str unit tests ──────────────────────────────────────────────────

#[test]
fn json_str_plain_ascii() {
    assert_eq!(json_str("hello"), "\"hello\"");
}

#[test]
fn json_str_escapes_double_quote() {
    assert_eq!(json_str(r#"say "hi""#), r#""say \"hi\"""#);
}

#[test]
fn json_str_escapes_backslash() {
    assert_eq!(json_str(r"a\b"), r#""a\\b""#);
}

#[test]
fn json_str_escapes_newline_tab_cr() {
    assert_eq!(json_str("a\nb\tc\r"), r#""a\nb\tc\r""#);
}

#[test]
fn json_str_escapes_control_chars_as_u_xxxx() {
    // U+0001 and U+001F — must be \u0001 / \u001f, no curly braces
    assert_eq!(json_str("\x01"), "\"\\u0001\"");
    assert_eq!(json_str("\x1f"), "\"\\u001f\"");
}

/// Rust's {:?} emits \u{f800}; json_str must emit the literal
/// UTF-8 character (or a valid \uXXXX escape without braces).
/// U+F800 is a valid Unicode code point — JSON allows it as UTF-8.
#[test]
fn json_str_non_ascii_no_curly_brace_escape() {
    let ch = '\u{f800}';
    let result = json_str(&ch.to_string());
    // Must not contain the Rust debug escape syntax \u{...}
    assert!(!result.contains("\\u{"), "got: {result}");
    // Must be a valid quoted string containing the literal character
    assert!(result.starts_with('"') && result.ends_with('"'));
    let inner = &result[1..result.len() - 1];
    // The character should appear literally (UTF-8 pass-through)
    assert!(inner.contains(ch), "got: {result}");
}

#[test]
fn json_str_multibyte_unicode_passthrough() {
    // Emoji (4-byte UTF-8) and CJK (3-byte) pass through literally
    assert_eq!(json_str("αβγ"), "\"αβγ\"");
    assert_eq!(json_str("日本語"), "\"日本語\"");
    assert_eq!(json_str("🎉"), "\"🎉\"");
}

#[test]
fn json_str_empty() {
    assert_eq!(json_str(""), "\"\"");
}

// ── helpers ──────────────────────────────────────────────────────────────

fn make_match(snippet: &str) -> ScanMatch {
    ScanMatch {
        rule_name:    "test_rule".to_string(),
        file:         "src/foo.rs".to_string(),
        line:         1,
        column:       1,
        scope_path:   vec![],
        matched_text: "match".to_string(),
        snippet:      snippet.to_string(),
        ai_snippet:   String::new(),
        message:      "msg".to_string(),
        severity:     Severity::Warning,
        context:      MatchContext::Code,
        ai_verdict:   None,
    }
}

fn test_meta() -> ScanMetadata<'static> {
    ScanMetadata { configs: &[], command_line: "yarecs test" }
}

fn collect(matches: &[ScanMatch], fmt: OutputFormat) -> String {
    let mut buf = String::new();
    write_results(&mut buf, &fmt, matches, &test_meta());
    buf
}

// ── JSON output tests ────────────────────────────────────────────────────

#[test]
fn json_output_valid_for_non_ascii_snippet() {
    // U+F800 in the snippet must not produce \u{f800} (invalid JSON)
    let m = make_match("md5.Sum([]byte(\"Hello, \u{f800}!\"))");
    let out = collect(&[m], OutputFormat::Json);
    assert!(!out.contains("\\u{"), "Rust debug escape leaked into JSON: {out}");
    // Must be parseable — do a structural sanity check
    assert!(out.contains("\"snippet\":"));
}

#[test]
fn json_output_escapes_backslash_in_snippet() {
    // A snippet with a literal backslash (e.g. from a Go string) must be
    // double-escaped so the result is valid JSON (\\ in output)
    let m = make_match(r"fmt.Println(\n)");
    let out = collect(&[m], OutputFormat::Json);
    assert!(out.contains("\\\\"), "backslash not double-escaped: {out}");
}

#[test]
fn json_output_escapes_quotes_in_message() {
    let mut m = make_match("x");
    m.message = r#"use "safe" instead"#.to_string();
    let out = collect(&[m], OutputFormat::Json);
    assert!(out.contains(r#"\"safe\""#), "quotes not escaped: {out}");
    assert!(!out.contains("\\u{"), "Rust debug escape in output: {out}");
}

// ── SARIF output tests ───────────────────────────────────────────────────

#[test]
fn sarif_output_valid_for_non_ascii_snippet() {
    let m = make_match("md5.Sum([]byte(\"Hello, \u{f800}!\"))");
    let out = collect(&[m], OutputFormat::Sarif);
    assert!(!out.contains("\\u{"), "Rust debug escape in SARIF: {out}");
    assert!(out.contains("\"snippet\""));
}

#[test]
fn sarif_output_escapes_backslash_in_uri() {
    // Windows-style path — sarif_uri replaces \ with /, but if any \ remains
    // it must be escaped. Verify no raw backslash appears in the uri field.
    let mut m = make_match("x");
    m.file = r"src\subdir\foo.rs".to_string();
    let out = collect(&[m], OutputFormat::Sarif);
    // sarif_uri converts to forward slashes
    assert!(out.contains("src/subdir/foo.rs"), "path not normalized: {out}");
}

#[test]
fn sarif_output_structure_contains_required_keys() {
    let m = make_match("snippet text");
    let out = collect(&[m], OutputFormat::Sarif);
    for key in &["$schema", "version", "runs", "tool", "results", "ruleId", "level",
                 "message", "locations", "physicalLocation", "region", "snippet"] {
        assert!(out.contains(key), "missing key {key} in SARIF output");
    }
}

// ── metadata embedding tests ─────────────────────────────────────────────

#[test]
fn text_output_has_metadata_header() {
    let configs = vec!["rules/foo.toml".to_string(), "rules/bar.toml".to_string()];
    let meta = ScanMetadata { configs: &configs, command_line: "yarecs src/ -c rules/foo.toml" };
    let m = make_match("x");
    let mut buf = String::new();
    write_results(&mut buf, &OutputFormat::Text, &[m], &meta);
    let out = buf;
    assert!(out.starts_with("yarecs scan"), "missing header: {out}");
    assert!(out.contains("rules/foo.toml"), "config not in header: {out}");
    assert!(out.contains("rules/bar.toml"), "second config not in header: {out}");
    assert!(out.contains("yarecs src/ -c rules/foo.toml"), "command not in header: {out}");
    // Matches still appear after the header
    assert!(out.contains("src/foo.rs"), "match missing after header: {out}");
}

#[test]
fn text_output_empty_matches_still_has_header() {
    let configs = vec!["rules.toml".to_string()];
    let meta = ScanMetadata { configs: &configs, command_line: "yarecs ." };
    let mut buf = String::new();
    write_results(&mut buf, &OutputFormat::Text, &[], &meta);
    let out = buf;
    assert!(out.contains("yarecs scan"), "header missing for empty results: {out}");
    assert!(out.contains("rules.toml"), "config missing for empty results: {out}");
}

#[test]
fn json_output_has_metadata_field() {
    let configs = vec!["rules/foo.toml".to_string()];
    let meta = ScanMetadata { configs: &configs, command_line: "yarecs src/ -c rules/foo.toml" };
    let m = make_match("x");
    let mut buf = String::new();
    write_results(&mut buf, &OutputFormat::Json, &[m], &meta);
    let out = buf;
    assert!(out.contains("\"metadata\""), "metadata key missing: {out}");
    assert!(out.contains("\"configs\""), "configs key missing: {out}");
    assert!(out.contains("\"command\""), "command key missing: {out}");
    assert!(out.contains("rules/foo.toml"), "config path missing: {out}");
    assert!(out.contains("\"matches\""), "matches key missing: {out}");
    // Match data still present
    assert!(out.contains("\"rule\""), "rule field missing: {out}");
}

#[test]
fn json_metadata_command_is_escaped() {
    // A command with backslashes (Windows paths) must be valid JSON.
    let meta = ScanMetadata {
        configs: &[],
        command_line: r#"yarecs "C:\src\my project" -c rules\foo.toml"#,
    };
    let mut buf = String::new();
    write_results(&mut buf, &OutputFormat::Json, &[], &meta);
    let out = buf;
    // No raw backslashes inside a JSON string value
    assert!(out.contains("\\\\"), "backslash not escaped in command: {out}");
}

#[test]
fn sarif_output_has_invocations() {
    let configs = vec!["rules/foo.toml".to_string()];
    let meta = ScanMetadata { configs: &configs, command_line: "yarecs src/ -c rules/foo.toml" };
    let m = make_match("x");
    let mut buf = String::new();
    write_results(&mut buf, &OutputFormat::Sarif, &[m], &meta);
    let out = buf;
    assert!(out.contains("\"invocations\""), "invocations missing: {out}");
    assert!(out.contains("\"commandLine\""), "commandLine missing: {out}");
    assert!(out.contains("\"executionSuccessful\""), "executionSuccessful missing: {out}");
    assert!(out.contains("yarecs src/ -c rules/foo.toml"), "command text missing: {out}");
}

fn make_match_with_verdict(snippet: &str, is_fp: bool, reasoning: &str) -> ScanMatch {
    let mut m = make_match(snippet);
    m.ai_verdict = Some(AiVerdict { is_false_positive: is_fp, reasoning: reasoning.to_string() });
    m
}

// ── AI verdict in CSV ────────────────────────────────────────────────────

#[test]
fn csv_output_includes_ai_verdict_columns_in_header() {
    let m = make_match("x");
    let out = collect(&[m], OutputFormat::Csv);
    assert!(out.starts_with("rule,file,line,col,severity,scope,context,message,match,snippet,ai_verdict,ai_reasoning"),
        "header missing ai columns: {out}");
}

#[test]
fn csv_output_false_positive_verdict() {
    let m = make_match_with_verdict("x", true, "benign usage");
    let out = collect(&[m], OutputFormat::Csv);
    assert!(out.contains("false_positive"), "verdict label missing: {out}");
    assert!(out.contains("benign usage"), "reasoning missing: {out}");
}

#[test]
fn csv_output_confirmed_verdict() {
    let m = make_match_with_verdict("x", false, "real issue");
    let out = collect(&[m], OutputFormat::Csv);
    assert!(out.contains("confirmed"), "verdict label missing: {out}");
    assert!(out.contains("real issue"), "reasoning missing: {out}");
}

#[test]
fn csv_output_no_verdict_has_empty_ai_columns() {
    let m = make_match("x");
    let out = collect(&[m], OutputFormat::Csv);
    // Data row ends with two empty comma-separated fields
    assert!(out.contains(",,\n") || out.ends_with(",,\n") || out.contains(",,,"),
        "empty ai columns not present: {out}");
}

// ── AI verdict in SARIF ──────────────────────────────────────────────────

#[test]
fn sarif_output_ai_verdict_in_message_and_properties() {
    let m = make_match_with_verdict("x", true, "benign usage");
    let out = collect(&[m], OutputFormat::Sarif);
    assert!(out.contains("FALSE POSITIVE"), "AI label missing from message: {out}");
    assert!(out.contains("benign usage"), "reasoning missing: {out}");
    assert!(out.contains("\"ai_false_positive\": true"), "properties missing: {out}");
    assert!(out.contains("\"ai_reasoning\""), "ai_reasoning key missing: {out}");
}

#[test]
fn sarif_output_confirmed_verdict_in_message_and_properties() {
    let m = make_match_with_verdict("x", false, "real issue");
    let out = collect(&[m], OutputFormat::Sarif);
    assert!(out.contains("CONFIRMED"), "AI label missing from message: {out}");
    assert!(out.contains("real issue"), "reasoning missing: {out}");
    assert!(out.contains("\"ai_false_positive\": false"), "properties missing: {out}");
}

#[test]
fn sarif_output_no_verdict_has_no_properties() {
    let m = make_match("x");
    let out = collect(&[m], OutputFormat::Sarif);
    assert!(!out.contains("\"properties\""), "unexpected properties in output: {out}");
    assert!(!out.contains("ai_false_positive"), "unexpected ai field: {out}");
}

#[test]
fn csv_output_has_no_metadata_header() {
    // CSV has no metadata section — header row is always the column names.
    let configs = vec!["rules.toml".to_string()];
    let meta = ScanMetadata { configs: &configs, command_line: "yarecs ." };
    let m = make_match("x");
    let mut buf = String::new();
    write_results(&mut buf, &OutputFormat::Csv, &[m], &meta);
    let out = buf;
    assert!(out.starts_with("rule,file,"), "CSV should start with column header: {out}");
    assert!(!out.contains("yarecs scan"), "CSV must not have metadata header: {out}");
}

// ── exact reports ────────────────────────────────────────────────────────────

fn copy_of(m: &ScanMatch) -> ScanMatch {
    let mut copy = sample();
    copy.message = m.message.clone();
    copy
}

fn sample() -> ScanMatch {
    let mut m = make_match("a\n b");
    m.line = 12;
    m.column = 3;
    m.scope_path = vec!["N".to_string(), "f".to_string()];
    m.context = MatchContext::Comment;
    m.severity = Severity::Info;
    m
}

#[test]
fn text_report_is_exact() {
    let configs = vec!["a.toml".to_string(), "b.toml".to_string()];
    let meta = ScanMetadata { configs: &configs, command_line: "yarecs x" };
    let mut m = sample();
    m.ai_verdict = Some(AiVerdict { is_false_positive: true, reasoning: "why".to_string() });
    let mut out = "> ".to_string();
    write_results(&mut out, &OutputFormat::Text, &[m, make_match("x")], &meta);
    assert_eq!(
        out,
        "> yarecs scan \u{2014} config: a.toml, b.toml\ncommand: yarecs x\n\n\
         src/foo.rs:12:3: [info] test_rule  msg [N::f]  {in comment}\n  a\n   b\n  [AI: FALSE POSITIVE \u{2014} why]\n\
         src/foo.rs:1:1: [warning] test_rule  msg [<global>]\n  x\n"
    );
}

#[test]
fn json_report_is_exact() {
    let configs = vec!["a.toml".to_string(), "b.toml".to_string()];
    let meta = ScanMetadata { configs: &configs, command_line: "yarecs x" };
    let mut m = sample();
    m.ai_verdict = Some(AiVerdict { is_false_positive: false, reasoning: "why".to_string() });
    let mut out = String::new();
    write_results(&mut out, &OutputFormat::Json, &[m, make_match("x")], &meta);
    assert_eq!(
        out,
        "{\n  \"metadata\": {\n    \"configs\": [\"a.toml\",\"b.toml\"],\n    \"command\": \"yarecs x\"\n  },\n  \"matches\": [\n\
         \u{20}   {\"rule\":\"test_rule\",\"file\":\"src/foo.rs\",\"line\":12,\"col\":3,\"scope\":\"N::f\",\"severity\":\"info\",\"context\":\"comment\",\"message\":\"msg\",\"match\":\"match\",\"snippet\":\"a\\n b\",\"ai_verdict\":{\"is_false_positive\":false,\"reasoning\":\"why\"}},\n\
         \u{20}   {\"rule\":\"test_rule\",\"file\":\"src/foo.rs\",\"line\":1,\"col\":1,\"scope\":\"\",\"severity\":\"warning\",\"context\":\"code\",\"message\":\"msg\",\"match\":\"match\",\"snippet\":\"x\",\"ai_verdict\":null}\n\
         \u{20} ]\n}\n"
    );
}

#[test]
fn csv_report_is_exact() {
    let mut m = sample();
    m.message = "a,\"b\"".to_string();
    let out = collect(&[m], OutputFormat::Csv);
    assert_eq!(
        out,
        "rule,file,line,col,severity,scope,context,message,match,snippet,ai_verdict,ai_reasoning\n\
         test_rule,src/foo.rs,12,3,info,N::f,comment,\"a,\"\"b\"\"\",match,\"a\n b\",,\n"
    );
}

#[test]
fn sarif_report_is_exact() {
    let mut m = sample();
    m.ai_verdict = Some(AiVerdict { is_false_positive: true, reasoning: "why".to_string() });
    let out = collect(&[m], OutputFormat::Sarif);
    assert_eq!(
        out,
        "{\n  \"$schema\": \"https://schemastore.azurewebsites.net/schemas/json/sarif-2.1.0.json\",\n  \"version\": \"2.1.0\",\n  \"runs\": [{\n    \"tool\": {\"driver\": {\n      \"name\": \"yarecs\",\n      \"rules\": [\n        {\"id\": \"test_rule\", \"shortDescription\": {\"text\": \"msg\"}, \"defaultConfiguration\": {\"level\": \"note\"}}\n      ]\n    }},\n    \"invocations\": [{\n      \"commandLine\": \"yarecs test\",\n      \"executionSuccessful\": true\n    }],\n    \"results\": [\n      {\"ruleId\": \"test_rule\", \"level\": \"note\", \"message\": {\"text\": \"msg [N::f] {in comment} [AI: FALSE POSITIVE \u{2014} why]\"}, \"locations\": [{\"physicalLocation\": {\"artifactLocation\": {\"uri\": \"src/foo.rs\"}, \"region\": {\"startLine\": 12, \"startColumn\": 3, \"snippet\": {\"text\": \"a\\n b\"}}}}], \"properties\": {\"ai_false_positive\": true, \"ai_reasoning\": \"why\"}}\n    ]\n  }]\n}\n"
    );
}

#[test]
fn json_and_sarif_reports_are_json() {
    let mut m = sample();
    m.message = "\u{1}\u{1f}\"\\\t\r\n/\u{7f}\u{2028}é".to_string();
    for format in [OutputFormat::Json, OutputFormat::Sarif] {
        let out = collect(&[copy_of(&m), make_match("x")], format);
        assert!(serde_json::from_str::<serde_json::Value>(&out).is_ok());
    }
}

#[test]
fn json_strings_are_read_back() {
    let s: String = (0u32..0x300).filter_map(char::from_u32).collect();
    let back: String = serde_json::from_str(&json_str(&s)).unwrap();
    assert_eq!(back, s);
}

#[test]
fn csv_fields_are_quoted_where_needed() {
    assert_eq!(csv_field("plain"), "plain");
    assert_eq!(csv_field("a,b"), "\"a,b\"");
    assert_eq!(csv_field("\""), "\"\"\"\"");
    assert_eq!(csv_field("a\rb"), "\"a\rb\"");
    assert_eq!(csv_field(""), "");
}

#[test]
fn backslashes_of_a_uri_are_turned() {
    assert_eq!(sarif_uri("a\\b/c"), "a/b/c");
}

#[test]
fn sarif_lists_each_rule_once_in_order() {
    let mut ms = Vec::new();
    for (rule, message) in [("b", "first"), ("a", "x"), ("b", "second"), ("c", "y")] {
        let mut m = make_match("s");
        m.rule_name = rule.to_string();
        m.message = message.to_string();
        ms.push(m);
    }
    let out = collect(&ms, OutputFormat::Sarif);
    let value: serde_json::Value = serde_json::from_str(&out).unwrap();
    let rules = value["runs"][0]["tool"]["driver"]["rules"].as_array().unwrap();
    let listed: Vec<(&str, &str)> = rules
        .iter()
        .map(|r| (r["id"].as_str().unwrap(), r["shortDescription"]["text"].as_str().unwrap()))
        .collect();
    assert_eq!(listed, vec![("a", "x"), ("b", "first"), ("c", "y")]);
    assert_eq!(value["runs"][0]["results"].as_array().unwrap().len(), 4);
}

#[test]
fn text_line_shows_place_severity_rule_and_message() {
    let mut m = make_match("gets(buf);");
    m.file = "src/auth.cpp".to_string();
    m.line = 42;
    m.severity = Severity::Error;
    m.rule_name = "c_gets".to_string();
    m.message = "gets() has no bounds checking".to_string();
    let out = collect(&[m], OutputFormat::Text);
    let mut lines = out.lines().skip_while(|l| !l.starts_with("src/auth.cpp:42"));
    let line = lines.next().unwrap();
    assert!(line.contains("[error] c_gets  gets() has no bounds checking"), "{line}");
    assert_eq!(lines.next(), Some("  gets(buf);"));
}
