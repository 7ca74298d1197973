//! Formatters for scan results.
//!
//! Each format is written to a string by a function of its own; [`write_results`] selects one.

use crate::engine;
use crate::engine::{AiVerdict, MatchContext, ScanMatch};
use crate::engine_spec::MatchView;
use crate::output_spec;
use crate::output_spec::MetaView;
use crate::report_laws;
use crate::rules::Severity;
use crate::text;
use crate::text::{chars_of, comes_before, digit_char, join, push_decimal, replace_char, str_eq};
use vstd::prelude::*;

verus! {

// ---------------------------------------------------------------------------
// Types
// ---------------------------------------------------------------------------

/// Where the results come from.
pub struct ScanMetadata<'a> {
    /// Rule files that were loaded.
    pub configs: &'a [String],
    /// The command line of the scan.
    pub command_line: &'a str,
}

impl<'a> View for ScanMetadata<'a> {
    type V = MetaView;

    open spec fn view(&self) -> MetaView {
        MetaView {
            configs: text::string_views(self.configs@),
            command_line: self.command_line@,
        }
    }
}

/// Output format.
#[derive(Debug, Clone, Copy, PartialEq, Eq, Structural)]
pub enum OutputFormat {
    /// Human-readable text
    Text,
    /// JSON: one object per match
    Json,
    /// CSV after RFC 4180, with a header row
    Csv,
    /// SARIF v2.1.0
    Sarif,
}

// ---------------------------------------------------------------------------
// Dispatcher
// ---------------------------------------------------------------------------

/// Append the results in the chosen format.
pub fn write_results(
    out: &mut String,
    format: &OutputFormat,
    matches: &[ScanMatch],
    meta: &ScanMetadata,
)
    ensures
        final(out)@ == old(out)@ + output_spec::report(
            *format,
            engine::match_views(matches@),
            meta@,
        ),
        *format == OutputFormat::Text ==> final(out)@ == old(out)@ + output_spec::text_report(
            engine::match_views(matches@),
            meta@,
        ),
        *format == OutputFormat::Json ==> final(out)@ == old(out)@ + output_spec::json_report(
            engine::match_views(matches@),
            meta@,
        ),
        *format == OutputFormat::Csv ==> final(out)@ == old(out)@ + output_spec::csv_report(
            engine::match_views(matches@),
        ),
        *format == OutputFormat::Sarif ==> final(out)@ == old(out)@ + output_spec::sarif_report(
            engine::match_views(matches@),
            meta@,
        ),
{
    let report = match format {
        OutputFormat::Text => write_text(matches, meta),
        OutputFormat::Json => write_json(matches, meta),
        OutputFormat::Csv => write_csv(matches),
        OutputFormat::Sarif => write_sarif(matches, meta),
    };
    out.push_str(report.as_str());
}

fn comma(i: usize, n: usize) -> (r: &'static str)
    requires
        i < n,
    ensures
        r@ == output_spec::comma(i as int, n as int),
{
    if i + 1 < n {
        ","
    } else {
        ""
    }
}

fn bool_str(b: bool) -> (r: &'static str)
    ensures
        r@ == output_spec::bool_text(b),
{
    if b {
        "true"
    } else {
        "false"
    }
}

fn verdict_label(v: &AiVerdict) -> (r: &'static str)
    ensures
        r@ == output_spec::verdict_label(v@),
{
    if v.is_false_positive {
        "FALSE POSITIVE"
    } else {
        "CONFIRMED"
    }
}

// ---------------------------------------------------------------------------
// Text
// ---------------------------------------------------------------------------

fn text_scope(path: &Vec<String>) -> (r: String)
    ensures
        r@ == output_spec::text_scope(text::string_views(path@)),
{
    if path.len() == 0 {
        "<global>".to_owned()
    } else {
        join(path.as_slice(), "::")
    }
}

fn context_tag(context: MatchContext) -> (r: &'static str)
    ensures
        r@ == output_spec::context_tag(context),
        context == MatchContext::Code ==> r@ == ""@,
        context == MatchContext::Comment ==> r@ == "  {in comment}"@,
        context == MatchContext::StringLiteral ==> r@ == "  {in string}"@,
{
    match context {
        MatchContext::Code => "",
        MatchContext::Comment => "  {in comment}",
        MatchContext::StringLiteral => "  {in string}",
    }
}

fn text_verdict(verdict: &Option<AiVerdict>) -> (r: String)
    ensures
        r@ == output_spec::text_verdict(match *verdict {
            Some(v) => Some(v@),
            None => None,
        }),
{
    match verdict {
        Some(v) => {
            let mut out = "  [AI: ".to_owned();
            out.push_str(verdict_label(v));
            out.push_str(" \u{2014} ");
            out.push_str(v.reasoning.as_str());
            out.push_str("]\n");
            out
        },
        None => "".to_owned(),
    }
}

fn text_match(m: &ScanMatch) -> (r: String)
    ensures
        r@ == output_spec::text_match(m@),
{
    let mut out = m.file.clone();
    out.push_str(":");
    push_decimal(&mut out, m.line);
    out.push_str(":");
    push_decimal(&mut out, m.column);
    out.push_str(": [");
    out.push_str(m.severity.as_str());
    out.push_str("] ");
    out.push_str(m.rule_name.as_str());
    out.push_str("  ");
    out.push_str(m.message.as_str());
    out.push_str(" [");
    out.push_str(text_scope(&m.scope_path).as_str());
    out.push_str("]");
    out.push_str(context_tag(m.context));
    out.push_str("\n  ");
    out.push_str(replace_char(m.snippet.as_str(), '\n', "\n  ").as_str());
    out.push_str("\n");
    out.push_str(text_verdict(&m.ai_verdict).as_str());
    out
}

/// The results as text for people.
pub fn write_text(matches: &[ScanMatch], meta: &ScanMetadata) -> (r: String)
    ensures
        r@ == output_spec::text_report(engine::match_views(matches@), meta@),
{
    let ghost views = engine::match_views(matches@);
    let mut out = "".to_owned();
    let mut i: usize = 0;
    while i < matches.len()
        invariant
            views == engine::match_views(matches@),
            i <= matches@.len(),
            out@ == output_spec::text_matches(views.take(i as int)),
        decreases matches@.len() - i,
    {
        assert(views.take(i + 1).drop_last() =~= views.take(i as int));
        assert(views.take(i + 1).last() == matches@[i as int]@);
        out.push_str(text_match(&matches[i]).as_str());
        i = i + 1;
    }
    assert(views.take(i as int) =~= views);
    let mut report = "yarecs scan \u{2014} config: ".to_owned();
    report.push_str(join(meta.configs, ", ").as_str());
    report.push_str("\ncommand: ");
    report.push_str(meta.command_line);
    report.push_str("\n\n");
    report.push_str(out.as_str());
    report
}

// ---------------------------------------------------------------------------
// JSON
// ---------------------------------------------------------------------------

/// Append a character as it stands in a JSON string.
fn push_json_char(out: &mut String, c: char)
    ensures
        final(out)@ == old(out)@ + output_spec::json_char(c),
{
    let code: u32 = c as u32;
    if c == '"' {
        out.push('\\');
        out.push('"');
    } else if c == '\\' {
        out.push('\\');
        out.push('\\');
    } else if c == '\n' {
        out.push('\\');
        out.push('n');
    } else if c == '\r' {
        out.push('\\');
        out.push('r');
    } else if c == '\t' {
        out.push('\\');
        out.push('t');
    } else if code < 0x20 {
        out.push('\\');
        out.push('u');
        out.push('0');
        out.push('0');
        out.push(digit_char(code / 16));
        out.push(digit_char(code % 16));
    } else {
        out.push(c);
    }
    assert(out@ =~= old(out)@ + output_spec::json_char(c));
}

/// Encode `s` as a JSON string after RFC 8259: in double quotes, control characters as `\uXXXX`,
/// everything else literally.
pub fn json_str(s: &str) -> (r: String)
    ensures
        r@ == output_spec::json_text(s@),
{
    let chars = chars_of(s);
    let mut out = String::new();
    out.push('"');
    let mut i: usize = 0;
    proof {
        assert(s@.take(0) =~= seq![]);
        assert(out@ =~= seq!['"'] + output_spec::json_chars(s@.take(0)));
    }
    while i < chars.len()
        invariant
            chars@ == s@,
            i <= s@.len(),
            out@ == seq!['"'] + output_spec::json_chars(s@.take(i as int)),
        decreases s@.len() - i,
    {
        push_json_char(&mut out, chars[i]);
        proof {
            let next = s@.take(i + 1);
            assert(next.drop_last() =~= s@.take(i as int));
            assert(out@ =~= seq!['"'] + output_spec::json_chars(next));
        }
        i = i + 1;
    }
    assert(s@.take(i as int) =~= s@);
    out.push('"');
    assert(out@ =~= output_spec::json_text(s@));
    out
}

fn json_verdict(verdict: &Option<AiVerdict>) -> (r: String)
    ensures
        r@ == output_spec::json_verdict(match *verdict {
            Some(v) => Some(v@),
            None => None,
        }),
{
    match verdict {
        Some(v) => {
            let mut out = "{\"is_false_positive\":".to_owned();
            out.push_str(bool_str(v.is_false_positive));
            out.push_str(",\"reasoning\":");
            out.push_str(json_str(v.reasoning.as_str()).as_str());
            out.push_str("}");
            out
        },
        None => "null".to_owned(),
    }
}

fn json_match(m: &ScanMatch) -> (r: String)
    ensures
        r@ == output_spec::json_match(m@),
{
    let mut out = "    {\"rule\":".to_owned();
    out.push_str(json_str(m.rule_name.as_str()).as_str());
    out.push_str(",\"file\":");
    out.push_str(json_str(m.file.as_str()).as_str());
    out.push_str(",\"line\":");
    push_decimal(&mut out, m.line);
    out.push_str(",\"col\":");
    push_decimal(&mut out, m.column);
    out.push_str(",\"scope\":");
    out.push_str(json_str(join(m.scope_path.as_slice(), "::").as_str()).as_str());
    out.push_str(",\"severity\":");
    out.push_str(json_str(m.severity.as_str()).as_str());
    out.push_str(",\"context\":");
    out.push_str(json_str(m.context.as_str()).as_str());
    out.push_str(",\"message\":");
    out.push_str(json_str(m.message.as_str()).as_str());
    out.push_str(",\"match\":");
    out.push_str(json_str(m.matched_text.as_str()).as_str());
    out.push_str(",\"snippet\":");
    out.push_str(json_str(m.snippet.as_str()).as_str());
    out.push_str(",\"ai_verdict\":");
    out.push_str(json_verdict(&m.ai_verdict).as_str());
    out.push_str("}");
    out
}

fn json_configs(configs: &[String]) -> (r: String)
    ensures
        r@ == output_spec::json_configs(text::string_views(configs@), configs@.len() as int),
{
    let ghost views = text::string_views(configs@);
    let mut out = "".to_owned();
    let mut i: usize = 0;
    while i < configs.len()
        invariant
            views == text::string_views(configs@),
            i <= configs@.len(),
            out@ == output_spec::json_configs(views, i as int),
        decreases configs@.len() - i,
    {
        out.push_str(json_str(configs[i].as_str()).as_str());
        out.push_str(comma(i, configs.len()));
        i = i + 1;
    }
    out
}

/// The results as JSON: an object with the metadata and an array of matches.
pub fn write_json(matches: &[ScanMatch], meta: &ScanMetadata) -> (r: String)
    ensures
        r@ == output_spec::json_report(engine::match_views(matches@), meta@),
{
    let ghost views = engine::match_views(matches@);
    let mut list = "".to_owned();
    let mut i: usize = 0;
    while i < matches.len()
        invariant
            views == engine::match_views(matches@),
            i <= matches@.len(),
            list@ == output_spec::json_matches(views, i as int),
        decreases matches@.len() - i,
    {
        list.push_str(json_match(&matches[i]).as_str());
        list.push_str(comma(i, matches.len()));
        list.push_str("\n");
        i = i + 1;
    }
    let mut out = "{\n  \"metadata\": {\n    \"configs\": [".to_owned();
    out.push_str(json_configs(meta.configs).as_str());
    out.push_str("],\n    \"command\": ");
    out.push_str(json_str(meta.command_line).as_str());
    out.push_str("\n  },\n  \"matches\": [\n");
    out.push_str(list.as_str());
    out.push_str("  ]\n}\n");
    out
}

// ---------------------------------------------------------------------------
// CSV
// ---------------------------------------------------------------------------

/// Wrap `s` in double quotes if it contains a comma, a double quote, or a line ending, and double
/// the quotes in it (RFC 4180).
pub fn csv_field(s: &str) -> (r: String)
    ensures
        r@ == output_spec::csv_text(s@),
{
    let chars = chars_of(s);
    let mut quoted = false;
    let mut i: usize = 0;
    while i < chars.len() && !quoted
        invariant
            chars@ == s@,
            i <= s@.len(),
            quoted ==> output_spec::csv_needs_quotes(s@),
            !quoted ==> forall|j: int|
                0 <= j < i ==> s@[j] != ',' && s@[j] != '"' && s@[j] != '\n' && s@[j] != '\r',
        decreases s@.len() - i,
    {
        let c = chars[i];
        if c == ',' || c == '"' || c == '\n' || c == '\r' {
            assert(s@.contains(c));
            quoted = true;
        }
        i = i + 1;
    }
    if !quoted {
        return s.to_owned();
    }
    proof {
        reveal_strlit("\"");
        reveal_strlit("\"\"");
        assert("\""@ =~= seq!['"']);
        assert("\"\""@ =~= seq!['"', '"']);
    }
    let mut out = "\"".to_owned();
    out.push_str(replace_char(s, '"', "\"\"").as_str());
    out.push_str("\"");
    out
}

fn csv_verdict(verdict: &Option<AiVerdict>) -> (r: &'static str)
    ensures
        r@ == output_spec::csv_verdict(match *verdict {
            Some(v) => Some(v@),
            None => None,
        }),
{
    match verdict {
        Some(v) => if v.is_false_positive {
            "false_positive"
        } else {
            "confirmed"
        },
        None => "",
    }
}

fn csv_reasoning<'a>(verdict: &'a Option<AiVerdict>) -> (r: &'a str)
    ensures
        r@ == output_spec::csv_reasoning(match *verdict {
            Some(v) => Some(v@),
            None => None,
        }),
{
    match verdict {
        Some(v) => v.reasoning.as_str(),
        None => "",
    }
}

fn csv_match(m: &ScanMatch) -> (r: String)
    ensures
        r@ == output_spec::csv_match(m@),
{
    let mut out = csv_field(m.rule_name.as_str());
    out.push_str(",");
    out.push_str(csv_field(m.file.as_str()).as_str());
    out.push_str(",");
    push_decimal(&mut out, m.line);
    out.push_str(",");
    push_decimal(&mut out, m.column);
    out.push_str(",");
    out.push_str(csv_field(m.severity.as_str()).as_str());
    out.push_str(",");
    out.push_str(csv_field(join(m.scope_path.as_slice(), "::").as_str()).as_str());
    out.push_str(",");
    out.push_str(csv_field(m.context.as_str()).as_str());
    out.push_str(",");
    out.push_str(csv_field(m.message.as_str()).as_str());
    out.push_str(",");
    out.push_str(csv_field(m.matched_text.as_str()).as_str());
    out.push_str(",");
    out.push_str(csv_field(m.snippet.as_str()).as_str());
    out.push_str(",");
    out.push_str(csv_field(csv_verdict(&m.ai_verdict)).as_str());
    out.push_str(",");
    out.push_str(csv_field(csv_reasoning(&m.ai_verdict)).as_str());
    out.push_str("\n");
    out
}

/// The results as CSV: a header row and one row per match.
pub fn write_csv(matches: &[ScanMatch]) -> (r: String)
    ensures
        r@ == output_spec::csv_report(engine::match_views(matches@)),
{
    let ghost views = engine::match_views(matches@);
    let mut rows = "".to_owned();
    let mut i: usize = 0;
    while i < matches.len()
        invariant
            views == engine::match_views(matches@),
            i <= matches@.len(),
            rows@ == output_spec::csv_matches(views.take(i as int)),
        decreases matches@.len() - i,
    {
        assert(views.take(i + 1).drop_last() =~= views.take(i as int));
        assert(views.take(i + 1).last() == matches@[i as int]@);
        rows.push_str(csv_match(&matches[i]).as_str());
        i = i + 1;
    }
    assert(views.take(i as int) =~= views);
    let mut out =
        "rule,file,line,col,severity,scope,context,message,match,snippet,ai_verdict,ai_reasoning\n".to_owned();
    out.push_str(rows.as_str());
    out
}

// ---------------------------------------------------------------------------
// SARIF
// ---------------------------------------------------------------------------

fn sarif_level(severity: Severity) -> (r: &'static str)
    ensures
        r@ == output_spec::level_text(severity),
        severity == Severity::Error ==> r@ == "error"@,
        severity == Severity::Warning ==> r@ == "warning"@,
        severity == Severity::Info ==> r@ == "note"@,
{
    match severity {
        Severity::Error => "error",
        Severity::Warning => "warning",
        Severity::Info => "note",
    }
}

/// Convert a path to a URI with forward slashes.
pub fn sarif_uri(path: &str) -> (r: String)
    ensures
        r@ == output_spec::uri_text(path@),
        r@.len() == path@.len(),
        forall|i: int|
            0 <= i < path@.len() ==> #[trigger] r@[i] == (if path@[i] == '\\' {
                '/'
            } else {
                path@[i]
            }),
{
    proof {
        report_laws::law_uri(path@);
    }
    replace_char(path, '\\', "/")
}

/// The matches at the given places.
spec fn picked(matches: Seq<ScanMatch>, places: Seq<usize>) -> Seq<MatchView> {
    places.map_values(|i: usize| matches[i as int]@)
}

/// Put a match in its place by rule name, unless its rule is listed already.
fn insert_rule(list: &mut Vec<usize>, matches: &[ScanMatch], i: usize)
    requires
        i < matches@.len(),
        forall|k: int| 0 <= k < old(list)@.len() ==> (#[trigger] old(list)@[k]) < matches@.len(),
    ensures
        picked(matches@, final(list)@) == output_spec::insert_rule(
            picked(matches@, old(list)@),
            matches@[i as int]@,
        ),
        forall|k: int|
            0 <= k < final(list)@.len() ==> (#[trigger] final(list)@[k]) < matches@.len(),
{
    let ghost before = list@;
    let ghost views = picked(matches@, before);
    let ghost m = matches@[i as int]@;
    let name = matches[i].rule_name.as_str();
    let mut k: usize = 0;
    assert(views.take(0) + output_spec::insert_rule(views.skip(0), m)
        =~= output_spec::insert_rule(views, m)) by {
        assert(views.skip(0) =~= views);
    }
    while k < list.len()
        invariant
            list@ == before,
            before == old(list)@,
            views == picked(matches@, before),
            m == matches@[i as int]@,
            name@ == m.rule_name,
            i < matches@.len(),
            forall|k: int| 0 <= k < before.len() ==> (#[trigger] before[k]) < matches@.len(),
            k <= list@.len(),
            output_spec::insert_rule(views, m) == views.take(k as int) + output_spec::insert_rule(
                views.skip(k as int),
                m,
            ),
        decreases list@.len() - k,
    {
        let other = matches[list[k]].rule_name.as_str();
        proof {
            assert(views.skip(k as int)[0] == views[k as int]);
            assert(views[k as int].rule_name == other@);
        }
        if str_eq(other, name) {
            assert(views.take(k as int) + views.skip(k as int) =~= views);
            return;
        }
        if comes_before(name, other) {
            list.insert(k, i);
            assert(picked(matches@, list@) =~= views.take(k as int) + (seq![m] + views.skip(
                k as int,
            )));
            return;
        }
        proof {
            let rest = output_spec::insert_rule(views.skip(k + 1), m);
            assert(views.skip(k as int).skip(1) =~= views.skip(k + 1));
            assert(views.take(k as int) + (seq![views[k as int]] + rest) =~= views.take(k + 1)
                + rest);
        }
        k = k + 1;
    }
    list.push(i);
    assert(picked(matches@, list@) =~= views.take(k as int) + seq![m]);
}

/// The places of the first match of each rule, sorted by rule name.
fn collect_rules(matches: &[ScanMatch]) -> (r: Vec<usize>)
    ensures
        picked(matches@, r@) == output_spec::rule_list(engine::match_views(matches@)),
        forall|k: int| 0 <= k < r@.len() ==> (#[trigger] r@[k]) < matches@.len(),
{
    let ghost views = engine::match_views(matches@);
    let mut list: Vec<usize> = Vec::new();
    let mut i: usize = 0;
    assert(picked(matches@, list@) =~= seq![]);
    while i < matches.len()
        invariant
            views == engine::match_views(matches@),
            i <= matches@.len(),
            picked(matches@, list@) == output_spec::rule_list(views.take(i as int)),
            forall|k: int| 0 <= k < list@.len() ==> (#[trigger] list@[k]) < matches@.len(),
        decreases matches@.len() - i,
    {
        assert(views.take(i + 1).drop_last() =~= views.take(i as int));
        assert(views.take(i + 1).last() == matches@[i as int]@);
        insert_rule(&mut list, matches, i);
        i = i + 1;
    }
    assert(views.take(i as int) =~= views);
    list
}

fn sarif_rule(m: &ScanMatch) -> (r: String)
    ensures
        r@ == output_spec::sarif_rule(m@),
{
    let mut out = "        {\"id\": ".to_owned();
    out.push_str(json_str(m.rule_name.as_str()).as_str());
    out.push_str(", \"shortDescription\": {\"text\": ");
    out.push_str(json_str(m.message.as_str()).as_str());
    out.push_str("}, \"defaultConfiguration\": {\"level\": \"");
    out.push_str(sarif_level(m.severity));
    out.push_str("\"}}");
    out
}

fn context_suffix(context: MatchContext) -> (r: &'static str)
    ensures
        r@ == output_spec::context_suffix(context),
        context == MatchContext::Code ==> r@ == ""@,
        context == MatchContext::Comment ==> r@ == " {in comment}"@,
        context == MatchContext::StringLiteral ==> r@ == " {in string}"@,
{
    match context {
        MatchContext::Code => "",
        MatchContext::Comment => " {in comment}",
        MatchContext::StringLiteral => " {in string}",
    }
}

fn verdict_suffix(verdict: &Option<AiVerdict>) -> (r: String)
    ensures
        r@ == output_spec::verdict_suffix(match *verdict {
            Some(v) => Some(v@),
            None => None,
        }),
{
    match verdict {
        Some(v) => {
            let mut out = " [AI: ".to_owned();
            out.push_str(verdict_label(v));
            out.push_str(" \u{2014} ");
            out.push_str(v.reasoning.as_str());
            out.push_str("]");
            out
        },
        None => "".to_owned(),
    }
}

fn full_message(m: &ScanMatch) -> (r: String)
    ensures
        r@ == output_spec::full_message(m@),
{
    let mut out = m.message.clone();
    out.push_str(" [");
    out.push_str(join(m.scope_path.as_slice(), "::").as_str());
    out.push_str("]");
    out.push_str(context_suffix(m.context));
    out.push_str(verdict_suffix(&m.ai_verdict).as_str());
    out
}

fn sarif_properties(verdict: &Option<AiVerdict>) -> (r: String)
    ensures
        r@ == output_spec::sarif_properties(match *verdict {
            Some(v) => Some(v@),
            None => None,
        }),
{
    match verdict {
        Some(v) => {
            let mut out = ", \"properties\": {\"ai_false_positive\": ".to_owned();
            out.push_str(bool_str(v.is_false_positive));
            out.push_str(", \"ai_reasoning\": ");
            out.push_str(json_str(v.reasoning.as_str()).as_str());
            out.push_str("}");
            out
        },
        None => "".to_owned(),
    }
}

fn sarif_match(m: &ScanMatch) -> (r: String)
    ensures
        r@ == output_spec::sarif_match(m@),
{
    let mut out = "      {\"ruleId\": ".to_owned();
    out.push_str(json_str(m.rule_name.as_str()).as_str());
    out.push_str(", \"level\": \"");
    out.push_str(sarif_level(m.severity));
    out.push_str("\", \"message\": {\"text\": ");
    out.push_str(json_str(full_message(m).as_str()).as_str());
    out.push_str("}, \"locations\": [{\"physicalLocation\": {\"artifactLocation\": {\"uri\": ");
    out.push_str(json_str(sarif_uri(m.file.as_str()).as_str()).as_str());
    out.push_str("}, \"region\": {\"startLine\": ");
    push_decimal(&mut out, m.line);
    out.push_str(", \"startColumn\": ");
    push_decimal(&mut out, m.column);
    out.push_str(", \"snippet\": {\"text\": ");
    out.push_str(json_str(m.snippet.as_str()).as_str());
    out.push_str("}}}}]");
    out.push_str(sarif_properties(&m.ai_verdict).as_str());
    out.push_str("}");
    out
}

/// The results as SARIF: the rules that matched, the invocation, and one result per match.
pub fn write_sarif(matches: &[ScanMatch], meta: &ScanMetadata) -> (r: String)
    ensures
        r@ == output_spec::sarif_report(engine::match_views(matches@), meta@),
{
    let ghost views = engine::match_views(matches@);
    let list = collect_rules(matches);
    let ghost rule_views = output_spec::rule_list(views);
    let mut rules = "".to_owned();
    let mut i: usize = 0;
    while i < list.len()
        invariant
            rule_views == picked(matches@, list@),
            forall|k: int| 0 <= k < list@.len() ==> (#[trigger] list@[k]) < matches@.len(),
            i <= list@.len(),
            rules@ == output_spec::sarif_rules(rule_views, i as int),
        decreases list@.len() - i,
    {
        assert(rule_views[i as int] == matches@[list@[i as int] as int]@);
        rules.push_str(sarif_rule(&matches[list[i]]).as_str());
        rules.push_str(comma(i, list.len()));
        rules.push_str("\n");
        i = i + 1;
    }
    let mut results = "".to_owned();
    let mut k: usize = 0;
    while k < matches.len()
        invariant
            views == engine::match_views(matches@),
            k <= matches@.len(),
            results@ == output_spec::sarif_matches(views, k as int),
        decreases matches@.len() - k,
    {
        results.push_str(sarif_match(&matches[k]).as_str());
        results.push_str(comma(k, matches.len()));
        results.push_str("\n");
        k = k + 1;
    }
    let mut out =
        "{\n  \"$schema\": \"https://schemastore.azurewebsites.net/schemas/json/sarif-2.1.0.json\",\n".to_owned();
    out.push_str("  \"version\": \"2.1.0\",\n  \"runs\": [{\n    \"tool\": {\"driver\": {\n");
    out.push_str("      \"name\": \"yarecs\",\n      \"rules\": [\n");
    out.push_str(rules.as_str());
    out.push_str("      ]\n    }},\n    \"invocations\": [{\n      \"commandLine\": ");
    out.push_str(json_str(meta.command_line).as_str());
    out.push_str(",\n      \"executionSuccessful\": true\n    }],\n    \"results\": [\n");
    out.push_str(results.as_str());
    out.push_str("    ]\n  }]\n}\n");
    out
}

} // verus!
