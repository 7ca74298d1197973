//! Laws of the reports: escaping can be undone, and the rules are listed once and in order.

use crate::engine_spec::MatchView;
use crate::output_spec;
use crate::text;
use vstd::prelude::*;

verus! {

// ---------------------------------------------------------------------------
// JSON strings
// ---------------------------------------------------------------------------

/// The value of a lower-case hexadecimal digit.
pub open spec fn hex_value(c: char) -> Option<int> {
    if exists|d: int| 0 <= d < 16 && text::digit(d) == c {
        Some(choose|d: int| 0 <= d < 16 && text::digit(d) == c)
    } else {
        None
    }
}

/// What a reader of JSON makes of the characters between the quotes; none where a quote or a
/// control character stands unescaped, or an escape is not one of those written here.
pub open spec fn json_value(t: Seq<char>) -> Option<Seq<char>>
    decreases t.len(),
{
    if t.len() == 0 {
        Some(seq![])
    } else if t[0] == '\\' {
        if t.len() >= 2 && (t[1] == '"' || t[1] == '\\' || t[1] == 'n' || t[1] == 'r' || t[1]
            == 't') {
            let c = if t[1] == 'n' {
                '\n'
            } else if t[1] == 'r' {
                '\r'
            } else if t[1] == 't' {
                '\t'
            } else {
                t[1]
            };
            match json_value(t.skip(2)) {
                Some(rest) => Some(seq![c] + rest),
                None => None,
            }
        } else if t.len() >= 6 && t[1] == 'u' && t[2] == '0' && t[3] == '0' {
            match (hex_value(t[4]), hex_value(t[5]), json_value(t.skip(6))) {
                (Some(a), Some(b), Some(rest)) => Some(seq![((16 * a + b) as u8) as char] + rest),
                _ => None,
            }
        } else {
            None
        }
    } else if t[0] == '"' || (t[0] as u32) < 0x20 {
        None
    } else {
        match json_value(t.skip(1)) {
            Some(rest) => Some(seq![t[0]] + rest),
            None => None,
        }
    }
}

proof fn lemma_hex_value(d: int)
    requires
        0 <= d < 16,
    ensures
        hex_value(text::digit(d)) == Some(d),
{
    assert(exists|e: int| 0 <= e < 16 && text::digit(e) == text::digit(d));
    let e = choose|e: int| 0 <= e < 16 && text::digit(e) == text::digit(d);
    assert(e == d);
}

proof fn lemma_json_value_char(c: char, rest: Seq<char>)
    requires
        json_value(rest) is Some,
    ensures
        json_value(output_spec::json_char(c) + rest) == Some(seq![c] + json_value(rest)->0),
{
    let e = output_spec::json_char(c);
    let t = e + rest;
    if e.len() == 2 {
        assert(t.skip(2) =~= rest);
    } else if e.len() == 6 {
        assert(t.skip(6) =~= rest);
        let code = (c as u32) as int;
        lemma_hex_value(code / 16);
        lemma_hex_value(code % 16);
        assert(16 * (code / 16) + code % 16 == code);
        assert(((c as u32) as u8) as char == c) by {
            lemma_ascii_char(c);
        }
    } else {
        assert(t.skip(1) =~= rest);
    }
}

proof fn lemma_ascii_char(c: char)
    requires
        (c as u32) < 0x80,
    ensures
        ((c as u32) as u8) as char == c,
{
}

proof fn lemma_json_chars_cons(c: char, s: Seq<char>)
    ensures
        output_spec::json_chars(seq![c] + s) == output_spec::json_char(c)
            + output_spec::json_chars(s),
    decreases s.len(),
{
    let all = seq![c] + s;
    reveal_with_fuel(output_spec::json_chars, 2);
    if s.len() == 0 {
        assert(all.drop_last() =~= seq![]);
        assert(output_spec::json_chars(all) =~= output_spec::json_char(c)
            + output_spec::json_chars(s));
    } else {
        lemma_json_chars_cons(c, s.drop_last());
        assert(all.drop_last() =~= seq![c] + s.drop_last());
        assert(all.last() == s.last());
        assert(output_spec::json_chars(all) =~= output_spec::json_char(c)
            + output_spec::json_chars(s));
    }
}

proof fn lemma_json_round_trip(s: Seq<char>)
    ensures
        json_value(output_spec::json_chars(s)) == Some(s),
    decreases s.len(),
{
    if s.len() > 0 {
        let rest = s.skip(1);
        assert(s =~= seq![s[0]] + rest);
        lemma_json_chars_cons(s[0], rest);
        lemma_json_round_trip(rest);
        lemma_json_value_char(s[0], output_spec::json_chars(rest));
    } else {
        assert(s =~= seq![]);
    }
}

/// **Law.** Every text is written as a well-formed JSON string that a reader turns back into the
/// same text: between the quotes no quote and no control character stands unescaped.
pub proof fn law_json_round_trip(s: Seq<char>)
    ensures
        output_spec::json_text(s).len() >= 2,
        output_spec::json_text(s).first() == '"',
        output_spec::json_text(s).last() == '"',
        json_value(
            output_spec::json_text(s).subrange(1, output_spec::json_text(s).len() - 1),
        ) == Some(s),
{
    let t = output_spec::json_text(s);
    assert(t.subrange(1, t.len() - 1) =~= output_spec::json_chars(s));
    lemma_json_round_trip(s);
}

// ---------------------------------------------------------------------------
// CSV fields
// ---------------------------------------------------------------------------

/// What a reader of CSV makes of the characters inside quotes; none where a quote is not doubled.
pub open spec fn csv_unquoted(t: Seq<char>) -> Option<Seq<char>>
    decreases t.len(),
{
    if t.len() == 0 {
        Some(seq![])
    } else if t.last() != '"' {
        match csv_unquoted(t.drop_last()) {
            Some(rest) => Some(rest.push(t.last())),
            None => None,
        }
    } else if t.len() >= 2 && t[t.len() - 2] == '"' {
        match csv_unquoted(t.drop_last().drop_last()) {
            Some(rest) => Some(rest.push('"')),
            None => None,
        }
    } else {
        None
    }
}

/// What a reader of CSV makes of a field; none where it is malformed.
pub open spec fn csv_value(t: Seq<char>) -> Option<Seq<char>> {
    if t.len() >= 2 && t[0] == '"' && t.last() == '"' {
        csv_unquoted(t.subrange(1, t.len() - 1))
    } else if t.contains(',') || t.contains('"') || t.contains('\n') || t.contains('\r') {
        None
    } else {
        Some(t)
    }
}

proof fn lemma_csv_unquoted(s: Seq<char>)
    ensures
        csv_unquoted(text::replaced(s, '"', seq!['"', '"'])) == Some(s),
    decreases s.len(),
{
    let t = text::replaced(s, '"', seq!['"', '"']);
    if s.len() == 0 {
        assert(s =~= seq![]);
    } else {
        let init = s.drop_last();
        lemma_csv_unquoted(init);
        assert(s =~= init.push(s.last()));
        if s.last() == '"' {
            assert(t.drop_last().drop_last() =~= text::replaced(init, '"', seq!['"', '"']));
        } else {
            assert(t.drop_last() =~= text::replaced(init, '"', seq!['"', '"']));
        }
    }
}

/// **Law.** Every text is written as a CSV field that a reader turns back into the same text.
pub proof fn law_csv_round_trip(s: Seq<char>)
    ensures
        csv_value(output_spec::csv_text(s)) == Some(s),
{
    let t = output_spec::csv_text(s);
    if output_spec::csv_needs_quotes(s) {
        assert(t.subrange(1, t.len() - 1) =~= text::replaced(s, '"', seq!['"', '"']));
        lemma_csv_unquoted(s);
    } else if t.len() >= 2 && t[0] == '"' {
        assert(s.contains(s[0]));
    }
}

// ---------------------------------------------------------------------------
// SARIF rules
// ---------------------------------------------------------------------------

proof fn lemma_precedes_total(a: Seq<char>, b: Seq<char>)
    ensures
        a == b ==> !text::precedes(a, b),
        a != b ==> text::precedes(a, b) != text::precedes(b, a),
    decreases a.len(),
{
    if a.len() == 0 || b.len() == 0 {
        if a.len() == 0 && b.len() == 0 {
            assert(a =~= b);
        }
    } else if a[0] == b[0] {
        lemma_precedes_total(a.skip(1), b.skip(1));
        if a.skip(1) == b.skip(1) {
            assert(a =~= seq![a[0]] + a.skip(1));
            assert(b =~= seq![b[0]] + b.skip(1));
        }
    }
}

proof fn lemma_precedes_transitive(a: Seq<char>, b: Seq<char>, c: Seq<char>)
    requires
        text::precedes(a, b),
        text::precedes(b, c),
    ensures
        text::precedes(a, c),
    decreases a.len(),
{
    if a.len() > 0 && a[0] == b[0] && b[0] == c[0] {
        lemma_precedes_transitive(a.skip(1), b.skip(1), c.skip(1));
    }
}

/// The rule names come in strictly ascending order.
pub open spec fn rules_ascending(list: Seq<MatchView>) -> bool {
    forall|i: int, j: int|
        #![trigger list[i], list[j]]
        0 <= i < j < list.len() ==> text::precedes(list[i].rule_name, list[j].rule_name)
}

/// The rule is among those of the matches.
pub open spec fn has_rule(matches: Seq<MatchView>, name: Seq<char>) -> bool {
    exists|i: int| 0 <= i < matches.len() && (#[trigger] matches[i]).rule_name == name
}

proof fn lemma_insert_rule(list: Seq<MatchView>, m: MatchView)
    requires
        rules_ascending(list),
    ensures
        rules_ascending(output_spec::insert_rule(list, m)),
        forall|i: int|
            #![trigger output_spec::insert_rule(list, m)[i]]
            0 <= i < output_spec::insert_rule(list, m).len() ==> list.contains(
                output_spec::insert_rule(list, m)[i],
            ) || (output_spec::insert_rule(list, m)[i] == m && !has_rule(list, m.rule_name)),
        forall|i: int|
            #![trigger list[i]]
            0 <= i < list.len() ==> output_spec::insert_rule(list, m).contains(list[i]),
        has_rule(output_spec::insert_rule(list, m), m.rule_name),
    decreases list.len(),
{
    let all = output_spec::insert_rule(list, m);
    if list.len() == 0 {
        assert(all[0].rule_name == m.rule_name);
    } else if list[0].rule_name == m.rule_name {
        assert forall|i: int| #![trigger all[i]] 0 <= i < all.len() implies list.contains(
            all[i],
        ) by {}
    } else if text::precedes(m.rule_name, list[0].rule_name) {
        assert(all[0] == m);
        assert forall|k: int| 0 <= k < list.len() implies text::precedes(
            m.rule_name,
            (#[trigger] list[k]).rule_name,
        ) by {
            if k > 0 {
                lemma_precedes_transitive(m.rule_name, list[0].rule_name, list[k].rule_name);
            }
        }
        assert(!has_rule(list, m.rule_name)) by {
            if has_rule(list, m.rule_name) {
                let k = choose|k: int|
                    0 <= k < list.len() && (#[trigger] list[k]).rule_name == m.rule_name;
                lemma_precedes_total(m.rule_name, list[k].rule_name);
            }
        }
        assert forall|i: int, j: int| #![trigger all[i], all[j]] 0 <= i < j
            < all.len() implies text::precedes(all[i].rule_name, all[j].rule_name) by {
            assert(all[j] == list[j - 1]);
            if i > 0 {
                assert(all[i] == list[i - 1]);
            }
        }
        assert forall|i: int| #![trigger all[i]] 0 <= i < all.len() implies list.contains(all[i])
            || (all[i] == m && !has_rule(list, m.rule_name)) by {
            if i > 0 {
                assert(all[i] == list[i - 1]);
            }
        }
        assert forall|i: int| #![trigger list[i]] 0 <= i < list.len() implies all.contains(
            list[i],
        ) by {
            assert(all[i + 1] == list[i]);
        }
    } else {
        let tail = list.skip(1);
        assert forall|i: int| 0 <= i < tail.len() implies #[trigger] tail[i] == list[i + 1] by {}
        assert(rules_ascending(tail)) by {
            assert forall|i: int, j: int|
                #![trigger tail[i], tail[j]]
                0 <= i < j < tail.len() implies text::precedes(
                tail[i].rule_name,
                tail[j].rule_name,
            ) by {
                assert(tail[i] == list[i + 1] && tail[j] == list[j + 1]);
            }
        }
        lemma_insert_rule(tail, m);
        lemma_precedes_total(m.rule_name, list[0].rule_name);
        let rest = output_spec::insert_rule(tail, m);
        assert(all =~= seq![list[0]] + rest);
        assert forall|i: int| #![trigger all[i]] 0 <= i < all.len() implies list.contains(all[i])
            || (all[i] == m && !has_rule(list, m.rule_name)) by {
            if i > 0 {
                assert(all[i] == rest[i - 1]);
                if tail.contains(rest[i - 1]) {
                    let k = choose|k: int| 0 <= k < tail.len() && tail[k] == rest[i - 1];
                    assert(list[k + 1] == all[i]);
                } else if has_rule(list, m.rule_name) {
                    let k = choose|k: int|
                        0 <= k < list.len() && (#[trigger] list[k]).rule_name == m.rule_name;
                    assert(tail[k - 1].rule_name == m.rule_name);
                }
            } else {
                assert(list[0] == all[0]);
            }
        }
        assert forall|i: int, j: int| #![trigger all[i], all[j]] 0 <= i < j
            < all.len() implies text::precedes(all[i].rule_name, all[j].rule_name) by {
            assert(all[j] == rest[j - 1]);
            if i > 0 {
                assert(all[i] == rest[i - 1]);
            } else if tail.contains(rest[j - 1]) {
                let k = choose|k: int| 0 <= k < tail.len() && tail[k] == rest[j - 1];
                assert(list[k + 1] == all[j]);
            }
        }
        assert forall|i: int| #![trigger list[i]] 0 <= i < list.len() implies all.contains(
            list[i],
        ) by {
            if i > 0 {
                assert(tail[i - 1] == list[i]);
                assert(rest.contains(tail[i - 1]));
                let k = choose|k: int| 0 <= k < rest.len() && rest[k] == tail[i - 1];
                assert(all[k + 1] == list[i]);
            } else {
                assert(all[0] == list[0]);
            }
        }
        let k = choose|k: int| 0 <= k < rest.len() && (#[trigger] rest[k]).rule_name
            == m.rule_name;
        assert(all[k + 1].rule_name == m.rule_name);
    }
}

/// `m` is one of the matches, and none before it is of the same rule.
pub open spec fn is_first_of_rule(matches: Seq<MatchView>, m: MatchView) -> bool {
    exists|k: int|
        0 <= k < matches.len() && #[trigger] matches[k] == m && forall|j: int|
            0 <= j < k ==> (#[trigger] matches[j]).rule_name != m.rule_name
}

/// **Law.** The rule list of a SARIF report names every rule that matched exactly once, in
/// ascending order, each by its first match.
pub proof fn law_rule_list(matches: Seq<MatchView>)
    ensures
        rules_ascending(output_spec::rule_list(matches)),
        forall|name: Seq<char>| #[trigger]
            has_rule(output_spec::rule_list(matches), name) == has_rule(matches, name),
        forall|i: int|
            0 <= i < output_spec::rule_list(matches).len() ==> is_first_of_rule(
                matches,
                #[trigger] output_spec::rule_list(matches)[i],
            ),
    decreases matches.len(),
{
    if matches.len() > 0 {
        let init = matches.drop_last();
        let m = matches.last();
        let before = output_spec::rule_list(init);
        let all = output_spec::rule_list(matches);
        law_rule_list(init);
        lemma_insert_rule(before, m);
        assert forall|i: int| 0 <= i < init.len() implies #[trigger] init[i] == matches[i] by {}
        assert(matches[matches.len() - 1] == m);
        assert forall|name: Seq<char>| #[trigger] has_rule(all, name) == has_rule(
            matches,
            name,
        ) by {
            assert(has_rule(before, name) == has_rule(init, name));
            if has_rule(all, name) {
                let k = choose|k: int| 0 <= k < all.len() && (#[trigger] all[k]).rule_name == name;
                if before.contains(all[k]) {
                    let j = choose|j: int| 0 <= j < before.len() && before[j] == all[k];
                    assert(before[j].rule_name == name);
                    let i = choose|i: int|
                        0 <= i < init.len() && (#[trigger] init[i]).rule_name == name;
                    assert(matches[i].rule_name == name);
                }
            }
            if has_rule(matches, name) {
                let k = choose|k: int|
                    0 <= k < matches.len() && (#[trigger] matches[k]).rule_name == name;
                if k < init.len() {
                    assert(init[k].rule_name == name);
                    let j = choose|j: int|
                        0 <= j < before.len() && (#[trigger] before[j]).rule_name == name;
                    assert(all.contains(before[j]));
                    let i = choose|i: int| 0 <= i < all.len() && all[i] == before[j];
                    assert(all[i].rule_name == name);
                }
            }
        }
        assert forall|i: int| 0 <= i < all.len() implies is_first_of_rule(
            matches,
            #[trigger] all[i],
        ) by {
            if before.contains(all[i]) {
                let j = choose|j: int| 0 <= j < before.len() && before[j] == all[i];
                assert(is_first_of_rule(init, before[j]));
                let k = choose|k: int|
                    0 <= k < init.len() && #[trigger] init[k] == before[j] && forall|l: int|
                        0 <= l < k ==> (#[trigger] init[l]).rule_name != before[j].rule_name;
                assert(matches[k] == all[i]);
                assert forall|l: int| 0 <= l < k implies (#[trigger] matches[l]).rule_name
                    != all[i].rule_name by {
                    assert(init[l] == matches[l]);
                }
            } else {
                assert(!has_rule(init, m.rule_name)) by {
                    assert(has_rule(before, m.rule_name) == has_rule(init, m.rule_name));
                }
                let k = matches.len() - 1;
                assert(matches[k] == all[i]);
                assert forall|l: int| 0 <= l < k implies (#[trigger] matches[l]).rule_name
                    != all[i].rule_name by {
                    assert(init[l] == matches[l]);
                }
            }
        }
    }
}

} // verus!
