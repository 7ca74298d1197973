//! Laws of the reports: what stands in them for each match, and in what order.

use crate::engine::MatchContext;
use crate::engine_spec::{MatchView, VerdictView};
use crate::output_laws;
use crate::output_spec;
use crate::output_spec::MetaView;
use crate::rules::Severity;
use crate::text;
use crate::text_laws;
use vstd::prelude::*;

verus! {

// ---------------------------------------------------------------------------
// Texts in texts
// ---------------------------------------------------------------------------

/// The piece stands somewhere in the text.
pub open spec fn holds(t: Seq<char>, piece: Seq<char>) -> bool {
    exists|i: int| 0 <= i <= t.len() && piece.is_prefix_of(#[trigger] t.skip(i))
}

proof fn lemma_holds_itself(t: Seq<char>)
    ensures
        holds(t, t),
{
    assert(t.skip(0) =~= t);
    assert(t.is_prefix_of(t.skip(0)));
}

proof fn lemma_holds_more(t: Seq<char>, more: Seq<char>)
    ensures
        forall|piece: Seq<char>| #[trigger] holds(t, piece) ==> holds(t + more, piece),
{
    assert forall|piece: Seq<char>| #[trigger] holds(t, piece) implies holds(t + more, piece) by {
        let i = choose|i: int| 0 <= i <= t.len() && piece.is_prefix_of(#[trigger] t.skip(i));
        assert((t + more).skip(i) =~= t.skip(i) + more);
        assert(piece.is_prefix_of((t + more).skip(i)));
    }
}

proof fn lemma_holds_next(t: Seq<char>, key: Seq<char>, value: Seq<char>)
    ensures
        holds(t + key + value, key + value),
        forall|piece: Seq<char>| #[trigger] holds(t, piece) ==> holds(t + key + value, piece),
{
    lemma_holds_more(t, key);
    lemma_holds_more(t + key, value);
    let all = t + key + value;
    assert(all.skip(t.len() as int) =~= key + value);
    assert((key + value).is_prefix_of(all.skip(t.len() as int)));
}

/// The texts of the list one after the other, all but the last with a comma behind it.
pub open spec fn listed(entries: Seq<Seq<char>>, end: Seq<char>) -> Seq<char> {
    if entries.len() == 0 {
        seq![]
    } else {
        text::joined(entries, ","@ + end) + end
    }
}

/// The first `k` texts of the list, all but the last of the list with a comma behind it, each with the end.
spec fn lines_of(entries: Seq<Seq<char>>, end: Seq<char>, k: int) -> Seq<char>
    decreases k,
{
    if k <= 0 {
        ""@
    } else {
        lines_of(entries, end, k - 1) + entries[k - 1] + output_spec::comma(
            k - 1,
            entries.len() as int,
        ) + end
    }
}

proof fn lemma_lines_listed(entries: Seq<Seq<char>>, end: Seq<char>)
    ensures
        lines_of(entries, end, entries.len() as int) == listed(entries, end),
{
    reveal_strlit("");
    if entries.len() > 0 {
        lemma_lines_joined(entries, end, entries.len() as int);
        assert(entries.take(entries.len() as int) =~= entries);
    }
}

proof fn lemma_lines_joined(entries: Seq<Seq<char>>, end: Seq<char>, k: int)
    requires
        0 < k <= entries.len(),
    ensures
        lines_of(entries, end, k) == text::joined(entries.take(k), ","@ + end) + (if k
            < entries.len() {
            ","@ + end
        } else {
            end
        }),
    decreases k,
{
    reveal_strlit("");
    reveal_with_fuel(lines_of, 2);
    let sep = ","@ + end;
    let entry = entries[k - 1];
    let last = if k < entries.len() {
        sep
    } else {
        end
    };
    assert(entries.take(k).drop_last() =~= entries.take(k - 1));
    if k == 1 {
        assert(lines_of(entries, end, k) =~= entry + last);
    } else {
        lemma_lines_joined(entries, end, k - 1);
        let done = text::joined(entries.take(k - 1), sep);
        assert(lines_of(entries, end, k) =~= done + sep + entry + last);
    }
}

// ---------------------------------------------------------------------------
// Names
// ---------------------------------------------------------------------------

/// **Law.** In a SARIF report an error has the level `error`, a warning the level `warning`, and an
/// informational match the level `note`: different severities have different levels.
pub proof fn law_levels(a: Severity, b: Severity)
    ensures
        output_spec::level_text(Severity::Error) == "error"@,
        output_spec::level_text(Severity::Warning) == "warning"@,
        output_spec::level_text(Severity::Info) == "note"@,
        a != b ==> output_spec::level_text(a) != output_spec::level_text(b),
{
    reveal_strlit("error");
    reveal_strlit("warning");
    reveal_strlit("note");
    assert("error"@.len() == 5 && "warning"@.len() == 7 && "note"@.len() == 4);
}

/// **Law.** The severities are called `error`, `warning` and `info`: no two of them the same.
pub proof fn law_severity_names(a: Severity, b: Severity)
    ensures
        Severity::Error.text() == "error"@,
        Severity::Warning.text() == "warning"@,
        Severity::Info.text() == "info"@,
        a != b ==> a.text() != b.text(),
{
    reveal_strlit("error");
    reveal_strlit("warning");
    reveal_strlit("info");
    assert("error"@.len() == 5 && "warning"@.len() == 7 && "info"@.len() == 4);
}

/// **Law.** The contexts are called `code`, `comment` and `string`: no two of them the same.
pub proof fn law_context_names(a: MatchContext, b: MatchContext)
    ensures
        MatchContext::Code.text() == "code"@,
        MatchContext::Comment.text() == "comment"@,
        MatchContext::StringLiteral.text() == "string"@,
        a != b ==> a.text() != b.text(),
{
    reveal_strlit("code");
    reveal_strlit("comment");
    reveal_strlit("string");
    assert("code"@.len() == 4 && "comment"@.len() == 7 && "string"@.len() == 6);
}

/// **Law.** A match in a comment is tagged as such, and so is one in a string; a match in code has no
/// tag.
pub proof fn law_context_tags()
    ensures
        output_spec::context_tag(MatchContext::Code).len() == 0,
        output_spec::context_tag(MatchContext::Comment) == "  {in comment}"@,
        output_spec::context_tag(MatchContext::StringLiteral) == "  {in string}"@,
        output_spec::context_suffix(MatchContext::Code).len() == 0,
        output_spec::context_suffix(MatchContext::Comment) == " {in comment}"@,
        output_spec::context_suffix(MatchContext::StringLiteral) == " {in string}"@,
{
    reveal_strlit("");
}

/// **Law.** A URI is the path with a slash for each backslash, and otherwise the same.
pub proof fn law_uri(path: Seq<char>)
    ensures
        output_spec::uri_text(path).len() == path.len(),
        forall|i: int|
            0 <= i < path.len() ==> #[trigger] output_spec::uri_text(path)[i] == (if path[i]
                == '\\' {
                '/'
            } else {
                path[i]
            }),
    decreases path.len(),
{
    reveal_strlit("/");
    assert("/"@.len() == 1 && "/"@[0] == '/');
    if path.len() > 0 {
        let init = path.drop_last();
        law_uri(init);
        let uri = output_spec::uri_text(path);
        assert forall|i: int| 0 <= i < path.len() implies #[trigger] uri[i] == (if path[i] == '\\' {
            '/'
        } else {
            path[i]
        }) by {
            if i < init.len() {
                assert(uri[i] == output_spec::uri_text(init)[i]);
                assert(init[i] == path[i]);
            }
        }
    }
}

// ---------------------------------------------------------------------------
// Text
// ---------------------------------------------------------------------------

/// **Law.** The text of a match begins with its file, line and column.  Then come its severity, rule,
/// message and scope, the tag of its context, and its snippet with every line indented.
pub proof fn law_text_entry(m: MatchView)
    ensures
        (m.file + ":"@ + text::decimal(m.line) + ":"@ + text::decimal(m.column)).is_prefix_of(
            output_spec::text_match(m),
        ),
        holds(output_spec::text_match(m), ": ["@ + m.severity.text()),
        holds(output_spec::text_match(m), "] "@ + m.rule_name),
        holds(output_spec::text_match(m), "  "@ + m.message),
        m.scope_path.len() > 0 ==> holds(
            output_spec::text_match(m),
            " ["@ + text::joined(m.scope_path, "::"@),
        ),
        m.scope_path.len() == 0 ==> holds(output_spec::text_match(m), " ["@ + "<global>"@),
        holds(output_spec::text_match(m), "]"@ + output_spec::context_tag(m.context)),
        holds(
            output_spec::text_match(m),
            "\n  "@ + text::replaced(m.snippet, '\n', "\n  "@),
        ),
        m.ai_verdict matches Some(v) ==> holds(
            output_spec::text_match(m),
            " \u{2014} "@ + v.reasoning,
        ) && holds(
            output_spec::text_match(m),
            "  [AI: "@ + (if v.is_false_positive {
                "FALSE POSITIVE"@
            } else {
                "CONFIRMED"@
            }),
        ),
{
    let t0 = m.file + ":"@ + text::decimal(m.line) + ":"@ + text::decimal(m.column);
    let scope = output_spec::text_scope(m.scope_path);
    let tag = output_spec::context_tag(m.context);
    let snippet = text::replaced(m.snippet, '\n', "\n  "@);
    let t1 = t0 + ": ["@ + m.severity.text();
    lemma_holds_next(t0, ": ["@, m.severity.text());
    let t2 = t1 + "] "@ + m.rule_name;
    lemma_holds_next(t1, "] "@, m.rule_name);
    let t3 = t2 + "  "@ + m.message;
    lemma_holds_next(t2, "  "@, m.message);
    let t4 = t3 + " ["@ + scope;
    lemma_holds_next(t3, " ["@, scope);
    let t5 = t4 + "]"@ + tag;
    lemma_holds_next(t4, "]"@, tag);
    let t6 = t5 + "\n  "@ + snippet;
    lemma_holds_next(t5, "\n  "@, snippet);
    let verdict = output_spec::text_verdict(m.ai_verdict);
    lemma_holds_more(t6, "\n"@);
    lemma_holds_more(t6 + "\n"@, verdict);
    let all = t6 + "\n"@ + verdict;
    assert(output_spec::text_match(m) == all);
    assert(t0.is_prefix_of(t1));
    assert(t1.is_prefix_of(t3));
    assert(t3.is_prefix_of(t5));
    assert(t5.is_prefix_of(all));
    if let Some(v) = m.ai_verdict {
        let label = output_spec::verdict_label(v);
        let t7 = t6 + "\n"@;
        let t8 = t7 + "  [AI: "@ + label;
        lemma_holds_next(t7, "  [AI: "@, label);
        let t9 = t8 + " \u{2014} "@ + v.reasoning;
        lemma_holds_next(t8, " \u{2014} "@, v.reasoning);
        lemma_holds_more(t9, "]\n"@);
        assert(all =~= t9 + "]\n"@);
    }
}

/// **Law.** The text report gives the matches one after the other, behind a header with the rule files and
/// the command.
pub proof fn law_text_report(a: Seq<MatchView>, b: Seq<MatchView>, m: MatchView, meta: MetaView)
    ensures
        output_spec::text_matches(seq![]).len() == 0,
        output_spec::text_matches(seq![m]) == output_spec::text_match(m),
        output_spec::text_matches(a + b) == output_spec::text_matches(a) + output_spec::text_matches(
            b,
        ),
        output_spec::text_report(a, meta) == output_spec::text_header(meta)
            + output_spec::text_matches(a),
        holds(
            output_spec::text_header(meta),
            "yarecs scan \u{2014} config: "@ + text::joined(meta.configs, ", "@),
        ),
        holds(output_spec::text_header(meta), "\ncommand: "@ + meta.command_line),
    decreases b.len(),
{
    reveal_strlit("");
    reveal_with_fuel(output_spec::text_matches, 2);
    assert(seq![m].drop_last() =~= seq![]);
    assert(output_spec::text_matches(seq![m]) =~= output_spec::text_match(m));
    if b.len() == 0 {
        assert(a + b =~= a);
        assert(output_spec::text_matches(a) + output_spec::text_matches(b)
            =~= output_spec::text_matches(a));
    } else {
        law_text_report(a, b.drop_last(), m, meta);
        assert((a + b).drop_last() =~= a + b.drop_last());
        assert(output_spec::text_matches(a + b) =~= output_spec::text_matches(a)
            + output_spec::text_matches(b));
    }
    let head = "yarecs scan \u{2014} config: "@ + text::joined(meta.configs, ", "@);
    lemma_holds_itself(head);
    lemma_holds_next(head, "\ncommand: "@, meta.command_line);
    lemma_holds_more(head + "\ncommand: "@ + meta.command_line, "\n\n"@);
}

// ---------------------------------------------------------------------------
// JSON
// ---------------------------------------------------------------------------

/// **Law.** The JSON object of a match has a member for each of its fields.
pub proof fn law_json_entry(m: MatchView)
    ensures
        holds(output_spec::json_match(m), "    {\"rule\":"@ + output_spec::json_text(m.rule_name)),
        holds(output_spec::json_match(m), ",\"file\":"@ + output_spec::json_text(m.file)),
        holds(output_spec::json_match(m), ",\"line\":"@ + text::decimal(m.line)),
        holds(output_spec::json_match(m), ",\"col\":"@ + text::decimal(m.column)),
        holds(
            output_spec::json_match(m),
            ",\"scope\":"@
                + output_spec::json_text(text::joined(m.scope_path, "::"@)),
        ),
        holds(
            output_spec::json_match(m),
            ",\"severity\":"@
                + output_spec::json_text(m.severity.text()),
        ),
        holds(
            output_spec::json_match(m),
            ",\"context\":"@
                + output_spec::json_text(m.context.text()),
        ),
        holds(output_spec::json_match(m), ",\"message\":"@ + output_spec::json_text(m.message)),
        holds(output_spec::json_match(m), ",\"match\":"@ + output_spec::json_text(m.matched_text)),
        holds(output_spec::json_match(m), ",\"snippet\":"@ + output_spec::json_text(m.snippet)),
        holds(
            output_spec::json_match(m),
            ",\"ai_verdict\":"@
                + output_spec::json_verdict(m.ai_verdict),
        ),
{
    let t0 = "    {\"rule\":"@ + output_spec::json_text(m.rule_name);
    lemma_holds_itself(t0);
    let t1 = t0 + ",\"file\":"@ + output_spec::json_text(m.file);
    lemma_holds_next(t0, ",\"file\":"@, output_spec::json_text(m.file));
    let t2 = t1 + ",\"line\":"@ + text::decimal(m.line);
    lemma_holds_next(t1, ",\"line\":"@, text::decimal(m.line));
    let t3 = t2 + ",\"col\":"@ + text::decimal(m.column);
    lemma_holds_next(t2, ",\"col\":"@, text::decimal(m.column));
    let t4 = t3 + ",\"scope\":"@ + output_spec::json_text(text::joined(m.scope_path, "::"@));
    lemma_holds_next(t3, ",\"scope\":"@, output_spec::json_text(text::joined(m.scope_path, "::"@)));
    let t5 = t4 + ",\"severity\":"@ + output_spec::json_text(m.severity.text());
    lemma_holds_next(t4, ",\"severity\":"@, output_spec::json_text(m.severity.text()));
    let t6 = t5 + ",\"context\":"@ + output_spec::json_text(m.context.text());
    lemma_holds_next(t5, ",\"context\":"@, output_spec::json_text(m.context.text()));
    let t7 = t6 + ",\"message\":"@ + output_spec::json_text(m.message);
    lemma_holds_next(t6, ",\"message\":"@, output_spec::json_text(m.message));
    let t8 = t7 + ",\"match\":"@ + output_spec::json_text(m.matched_text);
    lemma_holds_next(t7, ",\"match\":"@, output_spec::json_text(m.matched_text));
    let t9 = t8 + ",\"snippet\":"@ + output_spec::json_text(m.snippet);
    lemma_holds_next(t8, ",\"snippet\":"@, output_spec::json_text(m.snippet));
    let t10 = t9 + ",\"ai_verdict\":"@ + output_spec::json_verdict(m.ai_verdict);
    lemma_holds_next(t9, ",\"ai_verdict\":"@, output_spec::json_verdict(m.ai_verdict));
    lemma_holds_more(t10, "}"@);
    assert(output_spec::json_match(m) == (t10 + "}"@));
}

/// **Law.** A verdict is an object with the two fields of the verdict; without one there is a `null`.
pub proof fn law_json_verdict(v: VerdictView)
    ensures
        output_spec::json_verdict(None) == "null"@,
        v.is_false_positive ==> holds(
            output_spec::json_verdict(Some(v)),
            "{\"is_false_positive\":"@ + "true"@,
        ),
        !v.is_false_positive ==> holds(
            output_spec::json_verdict(Some(v)),
            "{\"is_false_positive\":"@ + "false"@,
        ),
        holds(
            output_spec::json_verdict(Some(v)),
            ",\"reasoning\":"@ + output_spec::json_text(v.reasoning),
        ),
{
    let t0 = "{\"is_false_positive\":"@ + output_spec::bool_text(v.is_false_positive);
    lemma_holds_itself(t0);
    lemma_holds_next(t0, ",\"reasoning\":"@, output_spec::json_text(v.reasoning));
    lemma_holds_more(
        t0 + ",\"reasoning\":"@ + output_spec::json_text(v.reasoning),
        "}"@,
    );
}

/// **Law.** The JSON array holds the objects of the matches in order, one on each line, with a comma behind
/// all but the last.
pub proof fn law_json_matches(list: Seq<MatchView>)
    ensures
        output_spec::json_matches(list, list.len() as int) == listed(
            Seq::new(list.len(), |i: int| output_spec::json_match(list[i])),
            "\n"@,
        ),
{
    let entries = Seq::new(list.len(), |i: int| output_spec::json_match(list[i]));
    lemma_json_matches(list, entries, list.len() as int);
    lemma_lines_listed(entries, "\n"@);
}

proof fn lemma_json_matches(list: Seq<MatchView>, entries: Seq<Seq<char>>, k: int)
    requires
        0 <= k <= list.len() == entries.len(),
        forall|i: int| 0 <= i < list.len() ==> #[trigger] entries[i] == output_spec::json_match(list[i]),
    ensures
        output_spec::json_matches(list, k) == lines_of(entries, "\n"@, k),
    decreases k,
{
    reveal_strlit("");
    if k > 0 {
        lemma_json_matches(list, entries, k - 1);
        assert(entries[k - 1] == output_spec::json_match(list[k - 1]));
    }
}

/// **Law.** The rule files are listed in order as JSON strings, with a comma behind all but the last.
pub proof fn law_json_configs(list: Seq<Seq<char>>)
    ensures
        output_spec::json_configs(list, list.len() as int) == listed(
            Seq::new(list.len(), |i: int| output_spec::json_text(list[i])),
            ""@,
        ),
{
    let entries = Seq::new(list.len(), |i: int| output_spec::json_text(list[i]));
    lemma_json_configs(list, entries, list.len() as int);
    lemma_lines_listed(entries, ""@);
}

proof fn lemma_json_configs(list: Seq<Seq<char>>, entries: Seq<Seq<char>>, k: int)
    requires
        0 <= k <= list.len() == entries.len(),
        forall|i: int| 0 <= i < list.len() ==> #[trigger] entries[i] == output_spec::json_text(list[i]),
    ensures
        output_spec::json_configs(list, k) == lines_of(entries, ""@, k),
    decreases k,
{
    reveal_strlit("");
    if k > 0 {
        lemma_json_configs(list, entries, k - 1);
        assert(entries[k - 1] == output_spec::json_text(list[k - 1]));
        let entry = entries[k - 1] + output_spec::comma(k - 1, list.len() as int);
        assert(entry + ""@ =~= entry);
        assert(lines_of(entries, ""@, k) =~= lines_of(entries, ""@, k - 1) + entry);
    }
}

/// **Law.** The JSON report holds the rule files, the command and the matches.
pub proof fn law_json_report(matches: Seq<MatchView>, meta: MetaView)
    ensures
        holds(
            output_spec::json_report(matches, meta),
            "{\n  \"metadata\": {\n    \"configs\": ["@ + output_spec::json_configs(
                meta.configs,
                meta.configs.len() as int,
            ),
        ),
        holds(
            output_spec::json_report(matches, meta),
            "],\n    \"command\": "@ + output_spec::json_text(meta.command_line),
        ),
        holds(
            output_spec::json_report(matches, meta),
            "\n  },\n  \"matches\": [\n"@ + output_spec::json_matches(
                matches,
                matches.len() as int,
            ),
        ),
        "  ]\n}\n"@.is_suffix_of(output_spec::json_report(matches, meta)),
{
    let configs = output_spec::json_configs(meta.configs, meta.configs.len() as int);
    let command = output_spec::json_text(meta.command_line);
    let list = output_spec::json_matches(matches, matches.len() as int);
    let t0 = "{\n  \"metadata\": {\n    \"configs\": ["@ + configs;
    lemma_holds_itself(t0);
    let t1 = t0 + "],\n    \"command\": "@ + command;
    lemma_holds_next(t0, "],\n    \"command\": "@, command);
    let t2 = t1 + "\n  },\n  \"matches\": [\n"@ + list;
    lemma_holds_next(t1, "\n  },\n  \"matches\": [\n"@, list);
    lemma_holds_more(t2, "  ]\n}\n"@);
}

/// **Law.** In a JSON string a quote, a backslash, a newline, a carriage return and a tab have escapes of
/// their own, every other control character is given by its code, and all else stands for itself.
pub proof fn law_json_escapes(c: char)
    ensures
        ({
            let t = output_spec::json_char(c);
            let code = c as u32;
            if code == 34 || code == 92 {
                t == seq!['\\', c]
            } else if code == 10 {
                t == seq!['\\', 'n']
            } else if code == 13 {
                t == seq!['\\', 'r']
            } else if code == 9 {
                t == seq!['\\', 't']
            } else if code < 32 {
                &&& t.len() == 6
                &&& t[0] == '\\' && t[1] == 'u' && t[2] == '0' && t[3] == '0'
                &&& text_laws::digit_value(t[4]) * 16 + text_laws::digit_value(t[5]) == code
            } else {
                t == seq![c]
            }
        }),
{
    let code = c as u32;
    if code < 32 {
        text_laws::law_digit(code as int / 16);
        text_laws::law_digit(code as int % 16);
    }
}

// ---------------------------------------------------------------------------
// CSV
// ---------------------------------------------------------------------------

/// **Law.** The row of a match has twelve columns, in the order of the header, from which a reader gets the
/// fields of the match back.
pub proof fn law_csv_row(m: MatchView) -> (row: Seq<Seq<char>>)
    requires
        m.line >= 0,
        m.column >= 0,
    ensures
        output_spec::csv_match(m) == text::joined(row, ","@) + "\n"@,
        row.len() == 12,
        output_laws::csv_value(row[0]) == Some(m.rule_name),
        output_laws::csv_value(row[1]) == Some(m.file),
        text_laws::number_value(row[2]) == m.line,
        text_laws::number_value(row[3]) == m.column,
        output_laws::csv_value(row[4]) == Some(m.severity.text()),
        output_laws::csv_value(row[5]) == Some(text::joined(m.scope_path, "::"@)),
        output_laws::csv_value(row[6]) == Some(m.context.text()),
        output_laws::csv_value(row[7]) == Some(m.message),
        output_laws::csv_value(row[8]) == Some(m.matched_text),
        output_laws::csv_value(row[9]) == Some(m.snippet),
        output_laws::csv_value(row[10]) == Some(
            match m.ai_verdict {
                Some(v) => if v.is_false_positive {
                    "false_positive"@
                } else {
                    "confirmed"@
                },
                None => ""@,
            },
        ),
        output_laws::csv_value(row[11]) == Some(
            match m.ai_verdict {
                Some(v) => v.reasoning,
                None => ""@,
            },
        ),
{
    output_laws::law_csv_round_trip(m.rule_name);
    output_laws::law_csv_round_trip(m.file);
    output_laws::law_csv_round_trip(m.severity.text());
    output_laws::law_csv_round_trip(text::joined(m.scope_path, "::"@));
    output_laws::law_csv_round_trip(m.context.text());
    output_laws::law_csv_round_trip(m.message);
    output_laws::law_csv_round_trip(m.matched_text);
    output_laws::law_csv_round_trip(m.snippet);
    output_laws::law_csv_round_trip(output_spec::csv_verdict(m.ai_verdict));
    output_laws::law_csv_round_trip(output_spec::csv_reasoning(m.ai_verdict));
    text_laws::law_decimal(m.line);
    text_laws::law_decimal(m.column);
    let r0 = seq![output_spec::csv_text(m.rule_name)];
    let r1 = r0.push(output_spec::csv_text(m.file));
    lemma_joined_push(r0, output_spec::csv_text(m.file), ","@);
    let r2 = r1.push(text::decimal(m.line));
    lemma_joined_push(r1, text::decimal(m.line), ","@);
    let r3 = r2.push(text::decimal(m.column));
    lemma_joined_push(r2, text::decimal(m.column), ","@);
    let r4 = r3.push(output_spec::csv_text(m.severity.text()));
    lemma_joined_push(r3, output_spec::csv_text(m.severity.text()), ","@);
    let r5 = r4.push(output_spec::csv_text(text::joined(m.scope_path, "::"@)));
    lemma_joined_push(r4, output_spec::csv_text(text::joined(m.scope_path, "::"@)), ","@);
    let r6 = r5.push(output_spec::csv_text(m.context.text()));
    lemma_joined_push(r5, output_spec::csv_text(m.context.text()), ","@);
    let r7 = r6.push(output_spec::csv_text(m.message));
    lemma_joined_push(r6, output_spec::csv_text(m.message), ","@);
    let r8 = r7.push(output_spec::csv_text(m.matched_text));
    lemma_joined_push(r7, output_spec::csv_text(m.matched_text), ","@);
    let r9 = r8.push(output_spec::csv_text(m.snippet));
    lemma_joined_push(r8, output_spec::csv_text(m.snippet), ","@);
    let r10 = r9.push(output_spec::csv_text(output_spec::csv_verdict(m.ai_verdict)));
    lemma_joined_push(r9, output_spec::csv_text(output_spec::csv_verdict(m.ai_verdict)), ","@);
    let r11 = r10.push(output_spec::csv_text(output_spec::csv_reasoning(m.ai_verdict)));
    lemma_joined_push(r10, output_spec::csv_text(output_spec::csv_reasoning(m.ai_verdict)), ","@);
    assert(text::joined(r0, ","@) == r0[0]);
    assert(output_spec::csv_match(m) == text::joined(r11, ","@) + "\n"@);
    r11
}

proof fn lemma_joined_push(parts: Seq<Seq<char>>, part: Seq<char>, sep: Seq<char>)
    requires
        parts.len() > 0,
    ensures
        text::joined(parts.push(part), sep) == text::joined(parts, sep) + sep + part,
{
    assert(parts.push(part).drop_last() =~= parts);
}

/// **Law.** The CSV report is a header with the names of the columns, and then the rows of the matches one
/// after the other.
pub proof fn law_csv_report(a: Seq<MatchView>, b: Seq<MatchView>, m: MatchView)
    ensures
        output_spec::csv_report(seq![])
            == "rule,file,line,col,severity,scope,context,message,match,snippet,ai_verdict,ai_reasoning\n"@,
        output_spec::csv_report(a + b) == output_spec::csv_report(a) + output_spec::csv_matches(b),
        output_spec::csv_matches(seq![m]) == output_spec::csv_match(m),
{
    reveal_strlit("");
    reveal_with_fuel(output_spec::csv_matches, 2);
    let header =
        "rule,file,line,col,severity,scope,context,message,match,snippet,ai_verdict,ai_reasoning\n"@;
    assert(header + ""@ =~= header);
    assert(seq![m].drop_last() =~= seq![]);
    assert(""@ + output_spec::csv_match(m) =~= output_spec::csv_match(m));
    lemma_csv_matches(a, b);
    assert(header + (output_spec::csv_matches(a) + output_spec::csv_matches(b)) =~= header
        + output_spec::csv_matches(a) + output_spec::csv_matches(b));
}

proof fn lemma_csv_matches(a: Seq<MatchView>, b: Seq<MatchView>)
    ensures
        output_spec::csv_matches(a + b) == output_spec::csv_matches(a) + output_spec::csv_matches(b),
    decreases b.len(),
{
    reveal_strlit("");
    let x = output_spec::csv_matches(a);
    if b.len() == 0 {
        assert(a + b =~= a);
        assert(x + ""@ =~= x);
    } else {
        lemma_csv_matches(a, b.drop_last());
        assert((a + b).drop_last() =~= a + b.drop_last());
        let y = output_spec::csv_matches(b.drop_last());
        let z = output_spec::csv_match(b.last());
        assert(x + y + z =~= x + (y + z));
    }
}

/// **Law.** A CSV field is put in quotes exactly when it holds a comma, a quote or a line break.
pub proof fn law_csv_quotes(s: Seq<char>)
    ensures
        s.contains(',') || s.contains('"') || s.contains('\n') || s.contains('\r')
            ==> output_spec::csv_text(s).len() >= 2 && output_spec::csv_text(s)[0] == '"'
            && output_spec::csv_text(s).last() == '"',
        !(s.contains(',') || s.contains('"') || s.contains('\n') || s.contains('\r'))
            ==> output_spec::csv_text(s) == s,
{
}

// ---------------------------------------------------------------------------
// SARIF
// ---------------------------------------------------------------------------

/// **Law.** The SARIF result of a match names its rule, gives the level of its severity and its message, and
/// tells its file, line and column and its snippet.
pub proof fn law_sarif_entry(m: MatchView)
    ensures
        holds(
            output_spec::sarif_match(m),
            "      {\"ruleId\": "@
                + output_spec::json_text(m.rule_name),
        ),
        holds(
            output_spec::sarif_match(m),
            ", \"level\": \""@
                + output_spec::level_text(m.severity),
        ),
        holds(
            output_spec::sarif_match(m),
            "\", \"message\": {\"text\": "@
                + output_spec::json_text(output_spec::full_message(m)),
        ),
        holds(
            output_spec::sarif_match(m),
            "}, \"locations\": [{\"physicalLocation\": {\"artifactLocation\": {\"uri\": "@
                + output_spec::json_text(output_spec::uri_text(m.file)),
        ),
        holds(
            output_spec::sarif_match(m),
            "}, \"region\": {\"startLine\": "@
                + text::decimal(m.line),
        ),
        holds(output_spec::sarif_match(m), ", \"startColumn\": "@ + text::decimal(m.column)),
        holds(
            output_spec::sarif_match(m),
            ", \"snippet\": {\"text\": "@
                + output_spec::json_text(m.snippet),
        ),
        holds(output_spec::sarif_match(m), "}}}}]"@ + output_spec::sarif_properties(m.ai_verdict)),
{
    let t0 = "      {\"ruleId\": "@ + output_spec::json_text(m.rule_name);
    lemma_holds_itself(t0);
    let t1 = t0 + ", \"level\": \""@ + output_spec::level_text(m.severity);
    lemma_holds_next(t0, ", \"level\": \""@, output_spec::level_text(m.severity));
    let t2 = t1
        + "\", \"message\": {\"text\": "@
        + output_spec::json_text(output_spec::full_message(m));
    lemma_holds_next(
        t1,
        "\", \"message\": {\"text\": "@,
        output_spec::json_text(output_spec::full_message(m)),
    );
    let t3 = t2
        + "}, \"locations\": [{\"physicalLocation\": {\"artifactLocation\": {\"uri\": "@
        + output_spec::json_text(output_spec::uri_text(m.file));
    lemma_holds_next(
        t2,
        "}, \"locations\": [{\"physicalLocation\": {\"artifactLocation\": {\"uri\": "@,
        output_spec::json_text(output_spec::uri_text(m.file)),
    );
    let t4 = t3 + "}, \"region\": {\"startLine\": "@ + text::decimal(m.line);
    lemma_holds_next(t3, "}, \"region\": {\"startLine\": "@, text::decimal(m.line));
    let t5 = t4 + ", \"startColumn\": "@ + text::decimal(m.column);
    lemma_holds_next(t4, ", \"startColumn\": "@, text::decimal(m.column));
    let t6 = t5 + ", \"snippet\": {\"text\": "@ + output_spec::json_text(m.snippet);
    lemma_holds_next(t5, ", \"snippet\": {\"text\": "@, output_spec::json_text(m.snippet));
    let t7 = t6 + "}}}}]"@ + output_spec::sarif_properties(m.ai_verdict);
    lemma_holds_next(t6, "}}}}]"@, output_spec::sarif_properties(m.ai_verdict));
    lemma_holds_more(t7, "}"@);
    assert(output_spec::sarif_match(m) == (t7 + "}"@));
}

/// **Law.** The message of a result begins with that of the match and its scope; then come the suffix of its
/// context and the verdict.
pub proof fn law_full_message(m: MatchView)
    ensures
        (m.message + " ["@ + text::joined(m.scope_path, "::"@) + "]"@).is_prefix_of(
            output_spec::full_message(m),
        ),
        holds(output_spec::full_message(m), "]"@ + output_spec::context_suffix(m.context)),
        m.ai_verdict matches Some(v) ==> holds(
            output_spec::full_message(m),
            " \u{2014} "@ + v.reasoning,
        ) && holds(
            output_spec::full_message(m),
            " [AI: "@ + (if v.is_false_positive {
                "FALSE POSITIVE"@
            } else {
                "CONFIRMED"@
            }),
        ),
        m.ai_verdict is None ==> output_spec::full_message(m) == m.message + " ["@ + text::joined(
            m.scope_path,
            "::"@,
        ) + "]"@ + output_spec::context_suffix(m.context),
{
    reveal_strlit("");
    let t0 = m.message + " ["@ + text::joined(m.scope_path, "::"@);
    let suffix = output_spec::context_suffix(m.context);
    let verdict = output_spec::verdict_suffix(m.ai_verdict);
    let t1 = t0 + "]"@ + suffix;
    lemma_holds_next(t0, "]"@, suffix);
    lemma_holds_more(t1, verdict);
    assert((t0 + "]"@).is_prefix_of(t1));
    assert((t0 + "]"@).is_prefix_of(t1 + verdict));
    if let Some(v) = m.ai_verdict {
        lemma_verdict_suffix(t1, v);
    } else {
        assert(t1 + ""@ =~= t1);
    }
}

proof fn lemma_verdict_suffix(t: Seq<char>, v: VerdictView)
    ensures
        ({
            let all = t + output_spec::verdict_suffix(Some(v));
            &&& holds(all, " \u{2014} "@ + v.reasoning)
            &&& holds(all, " [AI: "@ + output_spec::verdict_label(v))
        }),
{
    let label = output_spec::verdict_label(v);
    let t2 = t + " [AI: "@ + label;
    lemma_holds_next(t, " [AI: "@, label);
    let t3 = t2 + " \u{2014} "@ + v.reasoning;
    lemma_holds_next(t2, " \u{2014} "@, v.reasoning);
    lemma_holds_more(t3, "]"@);
    assert(t + output_spec::verdict_suffix(Some(v)) =~= t3 + "]"@);
}

/// **Law.** The properties of a result give the verdict; without one there are none.
pub proof fn law_sarif_properties(v: VerdictView)
    ensures
        output_spec::sarif_properties(None).len() == 0,
        v.is_false_positive ==> holds(
            output_spec::sarif_properties(Some(v)),
            ", \"properties\": {\"ai_false_positive\": "@ + "true"@,
        ),
        !v.is_false_positive ==> holds(
            output_spec::sarif_properties(Some(v)),
            ", \"properties\": {\"ai_false_positive\": "@ + "false"@,
        ),
        holds(
            output_spec::sarif_properties(Some(v)),
            ", \"ai_reasoning\": "@ + output_spec::json_text(v.reasoning),
        ),
{
    reveal_strlit("");
    let t0 = ", \"properties\": {\"ai_false_positive\": "@ + output_spec::bool_text(
        v.is_false_positive,
    );
    lemma_holds_itself(t0);
    lemma_holds_next(t0, ", \"ai_reasoning\": "@, output_spec::json_text(v.reasoning));
    lemma_holds_more(
        t0 + ", \"ai_reasoning\": "@ + output_spec::json_text(v.reasoning),
        "}"@,
    );
}

/// **Law.** The description of a rule gives its name, its message and the level of its severity.
pub proof fn law_sarif_rule(m: MatchView)
    ensures
        holds(
            output_spec::sarif_rule(m),
            "        {\"id\": "@
                + output_spec::json_text(m.rule_name),
        ),
        holds(
            output_spec::sarif_rule(m),
            ", \"shortDescription\": {\"text\": "@
                + output_spec::json_text(m.message),
        ),
        holds(
            output_spec::sarif_rule(m),
            "}, \"defaultConfiguration\": {\"level\": \""@
                + output_spec::level_text(m.severity),
        ),
{
    let t0 = "        {\"id\": "@ + output_spec::json_text(m.rule_name);
    lemma_holds_itself(t0);
    let t1 = t0 + ", \"shortDescription\": {\"text\": "@ + output_spec::json_text(m.message);
    lemma_holds_next(t0, ", \"shortDescription\": {\"text\": "@, output_spec::json_text(m.message));
    let t2 = t1
        + "}, \"defaultConfiguration\": {\"level\": \""@
        + output_spec::level_text(m.severity);
    lemma_holds_next(
        t1,
        "}, \"defaultConfiguration\": {\"level\": \""@,
        output_spec::level_text(m.severity),
    );
    lemma_holds_more(t2, "\"}}"@);
    assert(output_spec::sarif_rule(m) == (t2 + "\"}}"@));
}

/// **Law.** A SARIF report holds the results of the matches in order, with a comma behind all but the last.
pub proof fn law_sarif_results(list: Seq<MatchView>)
    ensures
        output_spec::sarif_matches(list, list.len() as int) == listed(
            Seq::new(list.len(), |i: int| output_spec::sarif_match(list[i])),
            "\n"@,
        ),
{
    let entries = Seq::new(list.len(), |i: int| output_spec::sarif_match(list[i]));
    lemma_sarif_matches(list, entries, list.len() as int);
    lemma_lines_listed(entries, "\n"@);
}

proof fn lemma_sarif_matches(list: Seq<MatchView>, entries: Seq<Seq<char>>, k: int)
    requires
        0 <= k <= list.len() == entries.len(),
        forall|i: int| 0 <= i < list.len() ==> #[trigger] entries[i] == output_spec::sarif_match(list[i]),
    ensures
        output_spec::sarif_matches(list, k) == lines_of(entries, "\n"@, k),
    decreases k,
{
    reveal_strlit("");
    if k > 0 {
        lemma_sarif_matches(list, entries, k - 1);
        assert(entries[k - 1] == output_spec::sarif_match(list[k - 1]));
    }
}

/// **Law.** A SARIF report holds the descriptions of the rules in order, with a comma behind all but the last.
pub proof fn law_sarif_rules(list: Seq<MatchView>)
    ensures
        output_spec::sarif_rules(list, list.len() as int) == listed(
            Seq::new(list.len(), |i: int| output_spec::sarif_rule(list[i])),
            "\n"@,
        ),
{
    let entries = Seq::new(list.len(), |i: int| output_spec::sarif_rule(list[i]));
    lemma_sarif_rules(list, entries, list.len() as int);
    lemma_lines_listed(entries, "\n"@);
}

proof fn lemma_sarif_rules(list: Seq<MatchView>, entries: Seq<Seq<char>>, k: int)
    requires
        0 <= k <= list.len() == entries.len(),
        forall|i: int| 0 <= i < list.len() ==> #[trigger] entries[i] == output_spec::sarif_rule(list[i]),
    ensures
        output_spec::sarif_rules(list, k) == lines_of(entries, "\n"@, k),
    decreases k,
{
    reveal_strlit("");
    if k > 0 {
        lemma_sarif_rules(list, entries, k - 1);
        assert(entries[k - 1] == output_spec::sarif_rule(list[k - 1]));
    }
}

/// **Law.** The SARIF report holds the rules that matched, the command and the results of all matches.
pub proof fn law_sarif_report(matches: Seq<MatchView>, meta: MetaView)
    ensures
        holds(
            output_spec::sarif_report(matches, meta),
            "      \"name\": \"yarecs\",\n      \"rules\": [\n"@ + output_spec::sarif_rules(
                output_spec::rule_list(matches),
                output_spec::rule_list(matches).len() as int,
            ),
        ),
        holds(
            output_spec::sarif_report(matches, meta),
            "      ]\n    }},\n    \"invocations\": [{\n      \"commandLine\": "@
                + output_spec::json_text(meta.command_line),
        ),
        holds(
            output_spec::sarif_report(matches, meta),
            ",\n      \"executionSuccessful\": true\n    }],\n    \"results\": [\n"@
                + output_spec::sarif_matches(matches, matches.len() as int),
        ),
        holds(
            output_spec::sarif_report(matches, meta),
            "  \"version\": \"2.1.0\",\n  \"runs\": [{\n    \"tool\": {\"driver\": {\n"@,
        ),
        "    ]\n  }]\n}\n"@.is_suffix_of(output_spec::sarif_report(matches, meta)),
{
    let list = output_spec::rule_list(matches);
    let rules = output_spec::sarif_rules(list, list.len() as int);
    let command = output_spec::json_text(meta.command_line);
    let results = output_spec::sarif_matches(matches, matches.len() as int);
    let schema =
        "{\n  \"$schema\": \"https://schemastore.azurewebsites.net/schemas/json/sarif-2.1.0.json\",\n"@;
    let version = "  \"version\": \"2.1.0\",\n  \"runs\": [{\n    \"tool\": {\"driver\": {\n"@;
    let name = "      \"name\": \"yarecs\",\n      \"rules\": [\n"@;
    let t0 = schema + version;
    assert(t0.skip(schema.len() as int) =~= version);
    assert(version.is_prefix_of(t0.skip(schema.len() as int)));
    assert(holds(t0, version));
    let t1 = t0 + name + rules;
    lemma_holds_next(t0, name, rules);
    let invocation = "      ]\n    }},\n    \"invocations\": [{\n      \"commandLine\": "@;
    let t2 = t1 + invocation + command;
    lemma_holds_next(t1, invocation, command);
    let success = ",\n      \"executionSuccessful\": true\n    }],\n    \"results\": [\n"@;
    let t3 = t2 + success + results;
    lemma_holds_next(t2, success, results);
    lemma_holds_more(t3, "    ]\n  }]\n}\n"@);
    assert(output_spec::sarif_report(matches, meta) == t3 + "    ]\n  }]\n}\n"@);
}

} // verus!
