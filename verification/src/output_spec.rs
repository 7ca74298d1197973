//! What the reports look like, character by character.

use crate::engine::MatchContext;
use crate::engine_spec::{MatchView, VerdictView};
use crate::output::OutputFormat;
use crate::rules::Severity;
use crate::text;
use vstd::prelude::*;

verus! {

/// Mathematical counterpart of [`crate::output::ScanMetadata`].
pub struct MetaView {
    pub configs: Seq<Seq<char>>,
    pub command_line: Seq<char>,
}

/// A comma behind all elements but the last.
pub open spec fn comma(i: int, n: int) -> Seq<char> {
    if i + 1 < n {
        ","@
    } else {
        ""@
    }
}

/// The names of a scope path, joined by `::`.
pub open spec fn path_text(path: Seq<Seq<char>>) -> Seq<char> {
    text::joined(path, "::"@)
}

/// `true` or `false`.
pub open spec fn bool_text(b: bool) -> Seq<char> {
    if b {
        "true"@
    } else {
        "false"@
    }
}

/// How a verdict is called in texts for people.
pub open spec fn verdict_label(v: VerdictView) -> Seq<char> {
    if v.is_false_positive {
        "FALSE POSITIVE"@
    } else {
        "CONFIRMED"@
    }
}

// ---------------------------------------------------------------------------
// Text
// ---------------------------------------------------------------------------

/// What stands before the matches: the rule files and the command.
pub open spec fn text_header(meta: MetaView) -> Seq<char> {
    "yarecs scan \u{2014} config: "@ + text::joined(meta.configs, ", "@) + "\ncommand: "@
        + meta.command_line + "\n\n"@
}

/// The scope of a match, or what stands for the file root.
pub open spec fn text_scope(path: Seq<Seq<char>>) -> Seq<char> {
    if path.len() == 0 {
        "<global>"@
    } else {
        path_text(path)
    }
}

/// The tag of a match outside code.
pub open spec fn context_tag(context: MatchContext) -> Seq<char> {
    match context {
        MatchContext::Code => ""@,
        MatchContext::Comment => "  {in comment}"@,
        MatchContext::StringLiteral => "  {in string}"@,
    }
}

/// The line of a verdict.
pub open spec fn text_verdict(verdict: Option<VerdictView>) -> Seq<char> {
    match verdict {
        Some(v) => "  [AI: "@ + verdict_label(v) + " \u{2014} "@ + v.reasoning + "]\n"@,
        None => ""@,
    }
}

/// The lines of one match: its place, severity, rule, message and scope, and then the snippet, every
/// line of which is indented.
pub open spec fn text_match(m: MatchView) -> Seq<char> {
    m.file + ":"@ + text::decimal(m.line) + ":"@ + text::decimal(m.column) + ": ["@
        + m.severity.text() + "] "@ + m.rule_name + "  "@ + m.message + " ["@ + text_scope(m.scope_path) + "]"@
        + context_tag(m.context) + "\n  "@ + text::replaced(m.snippet, '\n', "\n  "@) + "\n"@
        + text_verdict(m.ai_verdict)
}

/// The lines of all matches.
pub open spec fn text_matches(matches: Seq<MatchView>) -> Seq<char>
    decreases matches.len(),
{
    if matches.len() == 0 {
        ""@
    } else {
        text_matches(matches.drop_last()) + text_match(matches.last())
    }
}

/// The whole text report.
pub open spec fn text_report(matches: Seq<MatchView>, meta: MetaView) -> Seq<char> {
    text_header(meta) + text_matches(matches)
}

// ---------------------------------------------------------------------------
// JSON
// ---------------------------------------------------------------------------

/// A character inside a JSON string: quotes, backslashes and control characters are escaped.
pub open spec fn json_char(c: char) -> Seq<char> {
    if c == '"' {
        seq!['\\', '"']
    } else if c == '\\' {
        seq!['\\', '\\']
    } else if c == '\n' {
        seq!['\\', 'n']
    } else if c == '\r' {
        seq!['\\', 'r']
    } else if c == '\t' {
        seq!['\\', 't']
    } else if (c as u32) < 0x20 {
        seq![
            '\\',
            'u',
            '0',
            '0',
            text::digit((c as u32) as int / 16),
            text::digit((c as u32) as int % 16),
        ]
    } else {
        seq![c]
    }
}

/// The characters of a text inside a JSON string.
pub open spec fn json_chars(s: Seq<char>) -> Seq<char>
    decreases s.len(),
{
    if s.len() == 0 {
        seq![]
    } else {
        json_chars(s.drop_last()) + json_char(s.last())
    }
}

/// A text as a JSON string.
pub open spec fn json_text(s: Seq<char>) -> Seq<char> {
    seq!['"'] + json_chars(s) + seq!['"']
}

/// The first `k` rule files as JSON strings.
pub open spec fn json_configs(configs: Seq<Seq<char>>, k: int) -> Seq<char>
    decreases k,
{
    if k <= 0 {
        ""@
    } else {
        json_configs(configs, k - 1) + json_text(configs[k - 1]) + comma(
            k - 1,
            configs.len() as int,
        )
    }
}

/// A verdict as JSON.
pub open spec fn json_verdict(verdict: Option<VerdictView>) -> Seq<char> {
    match verdict {
        Some(v) => "{\"is_false_positive\":"@ + bool_text(v.is_false_positive)
            + ",\"reasoning\":"@ + json_text(v.reasoning) + "}"@,
        None => "null"@,
    }
}

/// One match as a JSON object.
pub open spec fn json_match(m: MatchView) -> Seq<char> {
    "    {\"rule\":"@ + json_text(m.rule_name) + ",\"file\":"@ + json_text(m.file)
        + ",\"line\":"@ + text::decimal(m.line) + ",\"col\":"@ + text::decimal(m.column)
        + ",\"scope\":"@ + json_text(path_text(m.scope_path)) + ",\"severity\":"@ + json_text(
        m.severity.text(),
    ) + ",\"context\":"@ + json_text(m.context.text()) + ",\"message\":"@ + json_text(m.message)
        + ",\"match\":"@ + json_text(m.matched_text) + ",\"snippet\":"@ + json_text(m.snippet)
        + ",\"ai_verdict\":"@ + json_verdict(m.ai_verdict) + "}"@
}

/// The first `k` matches as elements of a JSON array.
pub open spec fn json_matches(matches: Seq<MatchView>, k: int) -> Seq<char>
    decreases k,
{
    if k <= 0 {
        ""@
    } else {
        json_matches(matches, k - 1) + json_match(matches[k - 1]) + comma(
            k - 1,
            matches.len() as int,
        ) + "\n"@
    }
}

/// The whole JSON report.
pub open spec fn json_report(matches: Seq<MatchView>, meta: MetaView) -> Seq<char> {
    "{\n  \"metadata\": {\n    \"configs\": ["@ + json_configs(
        meta.configs,
        meta.configs.len() as int,
    ) + "],\n    \"command\": "@ + json_text(meta.command_line) + "\n  },\n  \"matches\": [\n"@
        + json_matches(matches, matches.len() as int) + "  ]\n}\n"@
}

// ---------------------------------------------------------------------------
// CSV
// ---------------------------------------------------------------------------

/// The field has to be quoted.
pub open spec fn csv_needs_quotes(s: Seq<char>) -> bool {
    s.contains(',') || s.contains('"') || s.contains('\n') || s.contains('\r')
}

/// A text as a CSV field.
pub open spec fn csv_text(s: Seq<char>) -> Seq<char> {
    if csv_needs_quotes(s) {
        seq!['"'] + text::replaced(s, '"', seq!['"', '"']) + seq!['"']
    } else {
        s
    }
}

/// The verdict column.
pub open spec fn csv_verdict(verdict: Option<VerdictView>) -> Seq<char> {
    match verdict {
        Some(v) => if v.is_false_positive {
            "false_positive"@
        } else {
            "confirmed"@
        },
        None => ""@,
    }
}

/// The reasoning column.
pub open spec fn csv_reasoning(verdict: Option<VerdictView>) -> Seq<char> {
    match verdict {
        Some(v) => v.reasoning,
        None => ""@,
    }
}

/// The row of one match.
pub open spec fn csv_match(m: MatchView) -> Seq<char> {
    csv_text(m.rule_name) + ","@ + csv_text(m.file) + ","@ + text::decimal(m.line) + ","@
        + text::decimal(m.column) + ","@ + csv_text(m.severity.text()) + ","@ + csv_text(
        path_text(m.scope_path),
    ) + ","@ + csv_text(m.context.text()) + ","@ + csv_text(m.message) + ","@ + csv_text(
        m.matched_text,
    ) + ","@ + csv_text(m.snippet) + ","@ + csv_text(csv_verdict(m.ai_verdict)) + ","@ + csv_text(
        csv_reasoning(m.ai_verdict),
    ) + "\n"@
}

/// The rows of all matches.
pub open spec fn csv_matches(matches: Seq<MatchView>) -> Seq<char>
    decreases matches.len(),
{
    if matches.len() == 0 {
        ""@
    } else {
        csv_matches(matches.drop_last()) + csv_match(matches.last())
    }
}

/// The whole CSV report.
pub open spec fn csv_report(matches: Seq<MatchView>) -> Seq<char> {
    "rule,file,line,col,severity,scope,context,message,match,snippet,ai_verdict,ai_reasoning\n"@
        + csv_matches(matches)
}

// ---------------------------------------------------------------------------
// SARIF
// ---------------------------------------------------------------------------

/// The SARIF name of a severity.
pub open spec fn level_text(severity: Severity) -> Seq<char> {
    match severity {
        Severity::Error => "error"@,
        Severity::Warning => "warning"@,
        Severity::Info => "note"@,
    }
}

/// A path as a URI with forward slashes.
pub open spec fn uri_text(path: Seq<char>) -> Seq<char> {
    text::replaced(path, '\\', "/"@)
}

/// `m` takes its place by rule name among matches of different rules; it is left out where its
/// rule is there already.
pub open spec fn insert_rule(list: Seq<MatchView>, m: MatchView) -> Seq<MatchView>
    decreases list.len(),
{
    if list.len() == 0 {
        seq![m]
    } else if list[0].rule_name == m.rule_name {
        list
    } else if text::precedes(m.rule_name, list[0].rule_name) {
        seq![m] + list
    } else {
        seq![list[0]] + insert_rule(list.skip(1), m)
    }
}

/// The first match of each rule, sorted by rule name.
pub open spec fn rule_list(matches: Seq<MatchView>) -> Seq<MatchView>
    decreases matches.len(),
{
    if matches.len() == 0 {
        seq![]
    } else {
        insert_rule(rule_list(matches.drop_last()), matches.last())
    }
}

/// The description of a rule, from its first match.
pub open spec fn sarif_rule(m: MatchView) -> Seq<char> {
    "        {\"id\": "@ + json_text(m.rule_name) + ", \"shortDescription\": {\"text\": "@
        + json_text(m.message) + "}, \"defaultConfiguration\": {\"level\": \""@ + level_text(
        m.severity,
    ) + "\"}}"@
}

/// The descriptions of the first `k` rules.
pub open spec fn sarif_rules(list: Seq<MatchView>, k: int) -> Seq<char>
    decreases k,
{
    if k <= 0 {
        ""@
    } else {
        sarif_rules(list, k - 1) + sarif_rule(list[k - 1]) + comma(k - 1, list.len() as int)
            + "\n"@
    }
}

/// The part of a message that says where in the source it applies.
pub open spec fn context_suffix(context: MatchContext) -> Seq<char> {
    match context {
        MatchContext::Code => ""@,
        MatchContext::Comment => " {in comment}"@,
        MatchContext::StringLiteral => " {in string}"@,
    }
}

/// The part of a message that gives a verdict.
pub open spec fn verdict_suffix(verdict: Option<VerdictView>) -> Seq<char> {
    match verdict {
        Some(v) => " [AI: "@ + verdict_label(v) + " \u{2014} "@ + v.reasoning + "]"@,
        None => ""@,
    }
}

/// The message of a match with its scope, context and verdict.
pub open spec fn full_message(m: MatchView) -> Seq<char> {
    m.message + " ["@ + path_text(m.scope_path) + "]"@ + context_suffix(m.context)
        + verdict_suffix(m.ai_verdict)
}

/// The properties of a match with a verdict.
pub open spec fn sarif_properties(verdict: Option<VerdictView>) -> Seq<char> {
    match verdict {
        Some(v) => ", \"properties\": {\"ai_false_positive\": "@ + bool_text(v.is_false_positive)
            + ", \"ai_reasoning\": "@ + json_text(v.reasoning) + "}"@,
        None => ""@,
    }
}

/// One match as a SARIF result.
pub open spec fn sarif_match(m: MatchView) -> Seq<char> {
    "      {\"ruleId\": "@ + json_text(m.rule_name) + ", \"level\": \""@ + level_text(m.severity)
        + "\", \"message\": {\"text\": "@ + json_text(full_message(m))
        + "}, \"locations\": [{\"physicalLocation\": {\"artifactLocation\": {\"uri\": "@
        + json_text(uri_text(m.file)) + "}, \"region\": {\"startLine\": "@ + text::decimal(m.line)
        + ", \"startColumn\": "@ + text::decimal(m.column) + ", \"snippet\": {\"text\": "@
        + json_text(m.snippet) + "}}}}]"@ + sarif_properties(m.ai_verdict) + "}"@
}

/// The first `k` matches as SARIF results.
pub open spec fn sarif_matches(matches: Seq<MatchView>, k: int) -> Seq<char>
    decreases k,
{
    if k <= 0 {
        ""@
    } else {
        sarif_matches(matches, k - 1) + sarif_match(matches[k - 1]) + comma(
            k - 1,
            matches.len() as int,
        ) + "\n"@
    }
}

/// What stands before the rules.
pub open spec fn sarif_head() -> Seq<char> {
    "{\n  \"$schema\": \"https://schemastore.azurewebsites.net/schemas/json/sarif-2.1.0.json\",\n"@
        + "  \"version\": \"2.1.0\",\n  \"runs\": [{\n    \"tool\": {\"driver\": {\n"@
        + "      \"name\": \"yarecs\",\n      \"rules\": [\n"@
}

/// The whole SARIF report.
pub open spec fn sarif_report(matches: Seq<MatchView>, meta: MetaView) -> Seq<char> {
    sarif_head() + sarif_rules(rule_list(matches), rule_list(matches).len() as int)
        + "      ]\n    }},\n    \"invocations\": [{\n      \"commandLine\": "@ + json_text(
        meta.command_line,
    ) + ",\n      \"executionSuccessful\": true\n    }],\n    \"results\": [\n"@ + sarif_matches(
        matches,
        matches.len() as int,
    ) + "    ]\n  }]\n}\n"@
}

/// The report in the chosen format.
pub open spec fn report(
    format: OutputFormat,
    matches: Seq<MatchView>,
    meta: MetaView,
) -> Seq<char> {
    match format {
        OutputFormat::Text => text_report(matches, meta),
        OutputFormat::Json => json_report(matches, meta),
        OutputFormat::Csv => csv_report(matches),
        OutputFormat::Sarif => sarif_report(matches, meta),
    }
}

} // verus!
