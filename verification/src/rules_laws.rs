//! Laws of scope filters.

use crate::pattern;
use crate::rules;
use crate::rules::{ChainConfig, FaultView, RuleConfig, SegmentView};
use crate::text;
use vstd::prelude::*;

verus! {

proof fn lemma_filter_of_joined(names: Seq<Seq<char>>)
    requires
        names.len() > 0,
        forall|i: int| #![trigger names[i]] 0 <= i < names.len() ==> !names[i].contains(':'),
    ensures
        rules::filter_of(text::joined(names, "::"@)) == names.map_values(
            |p: Seq<char>| rules::segment_of(p),
        ),
{
    reveal_strlit("::");
    text::law_pieces_of_joined(names, "::"@);
}

/// The text of `**`, `name` and `*`, joined by `::`.
pub open spec fn members_filter(name: Seq<char>) -> Seq<char> {
    "**::"@ + name + "::*"@
}

/// **Law.** The filter `**` matches every path, that of the file root too.
pub proof fn law_any_depth_matches_all(path: Seq<Seq<char>>)
    ensures
        rules::filter_matches(rules::filter_of("**"@), path),
{
    reveal_strlit("**");
    let names = seq!["**"@];
    lemma_filter_of_joined(names);
    let f = rules::filter_of("**"@);
    assert(f.len() == 1 && f[0] == SegmentView::AnyDepth);
    assert(f.skip(1) =~= seq![]);
    assert(path.skip(path.len() as int) =~= seq![]);
    assert(rules::filter_matches(f.skip(1), path.skip(path.len() as int)));
}

proof fn lemma_one_level(f: Seq<SegmentView>, path: Seq<Seq<char>>)
    requires
        f.len() == 1,
        f[0] == SegmentView::Any,
    ensures
        rules::filter_matches(f, path) == (path.len() == 1),
{
    assert(f.skip(1) =~= seq![]);
    reveal_with_fuel(rules::filter_matches, 2);
}

proof fn lemma_two_levels(f: Seq<SegmentView>, path: Seq<Seq<char>>)
    requires
        f.len() == 2,
        f[1] == SegmentView::Any,
        f[0] is Any || f[0] is Exact,
    ensures
        rules::filter_matches(f, path) == (path.len() == 2 && (f[0] matches SegmentView::Exact(
            name,
        ) ==> path[0] == name)),
{
    lemma_one_level(f.skip(1), path.skip(1));
}

/// **Law.** The filter `**::*` matches exactly the paths of named scopes.
pub proof fn law_any_named(path: Seq<Seq<char>>)
    ensures
        rules::filter_matches(rules::filter_of("**::*"@), path) == (path.len() >= 1),
{
    let names = seq!["**"@, "*"@];
    let f = rules::filter_of("**::*"@);
    reveal_strlit("**::*");
    reveal_strlit("**");
    reveal_strlit("*");
    reveal_strlit("::");
    reveal_with_fuel(text::joined, 3);
    assert(text::joined(names, "::"@) =~= "**::*"@) by {
        assert(names.drop_last() =~= seq!["**"@]);
    }
    lemma_filter_of_joined(names);
    assert("**"@.len() != "*"@.len());
    assert(f[0] == SegmentView::AnyDepth && f[1] == SegmentView::Any && f.len() == 2);
    assert forall|i: int| 0 <= i <= path.len() implies rules::filter_matches(
        f.skip(1),
        #[trigger] path.skip(i),
    ) == (i == path.len() - 1) by {
        lemma_one_level(f.skip(1), path.skip(i));
    }
    if path.len() >= 1 {
        assert(rules::filter_matches(f.skip(1), path.skip(path.len() - 1)));
    }
}

/// **Law.** The filter `**::*::*` matches exactly the paths of two or more levels.
pub proof fn law_any_member(path: Seq<Seq<char>>)
    ensures
        rules::filter_matches(rules::filter_of("**::*::*"@), path) == (path.len() >= 2),
{
    let names = seq!["**"@, "*"@, "*"@];
    let f = rules::filter_of("**::*::*"@);
    reveal_strlit("**::*::*");
    reveal_strlit("**");
    reveal_strlit("*");
    reveal_strlit("::");
    reveal_with_fuel(text::joined, 4);
    assert(text::joined(names, "::"@) =~= "**::*::*"@) by {
        assert(names.drop_last() =~= seq!["**"@, "*"@]);
        assert(names.drop_last().drop_last() =~= seq!["**"@]);
    }
    lemma_filter_of_joined(names);
    assert("**"@.len() != "*"@.len());
    assert(f[0] == SegmentView::AnyDepth && f[1] == SegmentView::Any && f[2] == SegmentView::Any
        && f.len() == 3);
    assert forall|i: int| 0 <= i <= path.len() implies rules::filter_matches(
        f.skip(1),
        #[trigger] path.skip(i),
    ) == (i == path.len() - 2) by {
        lemma_two_levels(f.skip(1), path.skip(i));
    }
    if path.len() >= 2 {
        assert(rules::filter_matches(f.skip(1), path.skip(path.len() - 2)));
    }
}

/// **Law.** The filter `**::Name::*` matches exactly the paths whose last level but one is `Name`.
pub proof fn law_members_of(name: Seq<char>, path: Seq<Seq<char>>)
    requires
        !name.contains(':'),
        name != "*"@,
        name != "**"@,
    ensures
        rules::filter_matches(rules::filter_of(members_filter(name)), path) == (path.len() >= 2
            && path[path.len() - 2] == name),
{
    let names = seq!["**"@, name, "*"@];
    let f = rules::filter_of(members_filter(name));
    reveal_strlit("**::");
    reveal_strlit("::*");
    reveal_strlit("**");
    reveal_strlit("*");
    reveal_strlit("::");
    reveal_with_fuel(text::joined, 4);
    assert(text::joined(names, "::"@) =~= members_filter(name)) by {
        assert(names.drop_last() =~= seq!["**"@, name]);
        assert(names.drop_last().drop_last() =~= seq!["**"@]);
    }
    lemma_filter_of_joined(names);
    assert("**"@.len() != "*"@.len());
    assert(f[0] == SegmentView::AnyDepth && f[1] == SegmentView::Exact(name) && f[2]
        == SegmentView::Any && f.len() == 3);
    assert forall|i: int| 0 <= i <= path.len() implies rules::filter_matches(
        f.skip(1),
        #[trigger] path.skip(i),
    ) == (i == path.len() - 2 && path[i] == name) by {
        lemma_two_levels(f.skip(1), path.skip(i));
    }
    if path.len() >= 2 && path[path.len() - 2] == name {
        assert(rules::filter_matches(f.skip(1), path.skip(path.len() - 2)));
    }
}

proof fn lemma_exact_segments(names: Seq<Seq<char>>, path: Seq<Seq<char>>)
    requires
        forall|i: int| #![trigger names[i]] 0 <= i < names.len() ==> names[i] != "*"@ && names[i]
            != "**"@,
    ensures
        rules::filter_matches(names.map_values(|p: Seq<char>| rules::segment_of(p)), path) == (
        names == path),
    decreases names.len(),
{
    let f = names.map_values(|p: Seq<char>| rules::segment_of(p));
    if names.len() == 0 {
        assert(path.len() == 0 ==> names =~= path);
    } else {
        let rest = names.skip(1);
        assert forall|i: int| #![trigger rest[i]] 0 <= i < rest.len() implies rest[i] != "*"@
            && rest[i] != "**"@ by {
            assert(rest[i] == names[i + 1]);
        }
        assert(f[0] == SegmentView::Exact(names[0]));
        assert(f.skip(1) =~= rest.map_values(|p: Seq<char>| rules::segment_of(p)));
        if path.len() > 0 {
            lemma_exact_segments(rest, path.skip(1));
            if rest == path.skip(1) && names[0] == path[0] {
                assert(names =~= seq![names[0]] + rest);
                assert(path =~= seq![path[0]] + path.skip(1));
            }
        }
    }
}

/// **Law.** A filter without wildcards matches exactly the path that it spells, name by name.
pub proof fn law_literal_filter(names: Seq<Seq<char>>, path: Seq<Seq<char>>)
    requires
        names.len() > 0,
        forall|i: int|
            #![trigger names[i]]
            0 <= i < names.len() ==> !names[i].contains(':') && names[i] != "*"@ && names[i]
                != "**"@,
    ensures
        rules::filter_matches(rules::filter_of(text::joined(names, "::"@)), path) == (names
            == path),
{
    lemma_filter_of_joined(names);
    lemma_exact_segments(names, path);
}

// ---------------------------------------------------------------------------
// Filters part by part
// ---------------------------------------------------------------------------

/// **Law.** The text of a filter is read piece by piece: `**` stands for any number of levels, `*` for one
/// level of any name, and every other piece for a level of that name.
pub proof fn law_filter_pieces(names: Seq<Seq<char>>, i: int)
    requires
        0 <= i < names.len(),
        forall|k: int|
            #![trigger names[k]]
            0 <= k < names.len() ==> !names[k].contains(':'),
    ensures
        rules::filter_of(text::joined(names, "::"@)).len() == names.len(),
        names[i] == seq!['*', '*'] ==> rules::filter_of(text::joined(names, "::"@))[i]
            == SegmentView::AnyDepth,
        names[i] == seq!['*'] ==> rules::filter_of(text::joined(names, "::"@))[i]
            == SegmentView::Any,
        names[i] != seq!['*'] && names[i] != seq!['*', '*'] ==> rules::filter_of(
            text::joined(names, "::"@),
        )[i] == SegmentView::Exact(names[i]),
{
    lemma_filter_of_joined(names);
    reveal_strlit("**");
    reveal_strlit("*");
    assert("**"@ =~= seq!['*', '*']);
    assert("*"@ =~= seq!['*']);
}

/// **Law.** A filter of one segment accepts any path for `**`, a path of one level for `*`, and for a name
/// the path of that name alone.  A filter without segments accepts the empty path alone.
pub proof fn law_single_segment(name: Seq<char>, path: Seq<Seq<char>>)
    ensures
        rules::filter_matches(seq![], path) == (path.len() == 0),
        rules::filter_matches(seq![SegmentView::AnyDepth], path),
        rules::filter_matches(seq![SegmentView::Any], path) == (path.len() == 1),
        rules::filter_matches(seq![SegmentView::Exact(name)], path) == (path == seq![name]),
{
    reveal_with_fuel(rules::filter_matches, 2);
    let none = Seq::<SegmentView>::empty();
    assert(seq![SegmentView::AnyDepth].skip(1) =~= none);
    assert(seq![SegmentView::Any].skip(1) =~= none);
    assert(seq![SegmentView::Exact(name)].skip(1) =~= none);
    assert(rules::filter_matches(none, path.skip(path.len() as int)));
    if path.len() == 1 && path[0] == name {
        assert(path =~= seq![name]);
    }
}

/// The path can be cut at `i` so that the first part satisfies one filter and the rest the other.
pub open spec fn splits_at(
    a: Seq<SegmentView>,
    b: Seq<SegmentView>,
    path: Seq<Seq<char>>,
    i: int,
) -> bool {
    0 <= i <= path.len() && rules::filter_matches(a, path.take(i)) && rules::filter_matches(
        b,
        path.skip(i),
    )
}

/// **Law.** A filter made of two parts accepts exactly the paths that can be cut in two, such that each
/// part accepts its piece.
pub proof fn law_filter_concat(a: Seq<SegmentView>, b: Seq<SegmentView>, path: Seq<Seq<char>>)
    ensures
        rules::filter_matches(a + b, path) == exists|i: int| #[trigger] splits_at(a, b, path, i),
    decreases a.len(),
{
    if a.len() == 0 {
        assert(a + b =~= b);
        assert(path.skip(0) =~= path);
        if rules::filter_matches(b, path) {
            assert(path.take(0) =~= seq![]);
            assert(splits_at(a, b, path, 0));
        }
    } else {
        let rest = a.skip(1);
        assert((a + b).skip(1) =~= rest + b);
        assert((a + b)[0] == a[0]);
        if rules::filter_matches(a + b, path) {
            lemma_concat_splits(a, b, path);
        }
        if exists|i: int| #[trigger] splits_at(a, b, path, i) {
            lemma_splits_concat(a, b, path);
        }
    }
}

proof fn lemma_concat_splits(a: Seq<SegmentView>, b: Seq<SegmentView>, path: Seq<Seq<char>>)
    requires
        a.len() > 0,
        rules::filter_matches(a + b, path),
    ensures
        exists|i: int| #[trigger] splits_at(a, b, path, i),
    decreases a.len(), 0int,
{
    let rest = a.skip(1);
    assert((a + b).skip(1) =~= rest + b);
    assert((a + b)[0] == a[0]);
    match a[0] {
        SegmentView::AnyDepth => {
            let k = choose|k: int|
                0 <= k <= path.len() && rules::filter_matches(rest + b, #[trigger] path.skip(k));
            let tail = path.skip(k);
            law_filter_concat(rest, b, tail);
            let i = choose|i: int| #[trigger] splits_at(rest, b, tail, i);
            assert(tail.skip(i) =~= path.skip(k + i));
            assert(path.take(k + i).skip(k) =~= tail.take(i));
            assert(rules::filter_matches(rest, path.take(k + i).skip(k)));
            assert(splits_at(a, b, path, k + i));
        },
        _ => {
            let tail = path.skip(1);
            law_filter_concat(rest, b, tail);
            let i = choose|i: int| #[trigger] splits_at(rest, b, tail, i);
            assert(tail.skip(i) =~= path.skip(i + 1));
            assert(path.take(i + 1).skip(1) =~= tail.take(i));
            assert(path.take(i + 1)[0] == path[0]);
            assert(splits_at(a, b, path, i + 1));
        },
    }
}

proof fn lemma_splits_concat(a: Seq<SegmentView>, b: Seq<SegmentView>, path: Seq<Seq<char>>)
    requires
        a.len() > 0,
        exists|i: int| #[trigger] splits_at(a, b, path, i),
    ensures
        rules::filter_matches(a + b, path),
    decreases a.len(), 0int,
{
    let rest = a.skip(1);
    assert((a + b).skip(1) =~= rest + b);
    assert((a + b)[0] == a[0]);
    let i = choose|i: int| #[trigger] splits_at(a, b, path, i);
    let head = path.take(i);
    match a[0] {
        SegmentView::AnyDepth => {
            let k = choose|k: int|
                0 <= k <= head.len() && rules::filter_matches(rest, #[trigger] head.skip(k));
            let tail = path.skip(k);
            assert(tail.take(i - k) =~= head.skip(k));
            assert(tail.skip(i - k) =~= path.skip(i));
            assert(splits_at(rest, b, tail, i - k));
            law_filter_concat(rest, b, tail);
            assert(rules::filter_matches(rest + b, path.skip(k)));
        },
        _ => {
            let tail = path.skip(1);
            assert(head[0] == path[0]);
            assert(tail.take(i - 1) =~= head.skip(1));
            assert(tail.skip(i - 1) =~= path.skip(i));
            assert(splits_at(rest, b, tail, i - 1));
            law_filter_concat(rest, b, tail);
        },
    }
}

// ---------------------------------------------------------------------------
// Compiling rules
// ---------------------------------------------------------------------------

/// The trigger of the rule compiles, with the flags that the rule sets.
pub open spec fn trigger_compiles(c: RuleConfig) -> bool {
    pattern::pattern_compiles(
        c.pattern@,
        c.case_insensitive,
        c.word,
        c.multiline,
        c.multiline,
    )
}

/// The pattern of the chain entry compiles, with the flags that the entry sets.
pub open spec fn entry_compiles(c: ChainConfig) -> bool {
    pattern::pattern_compiles(c.pattern@, c.case_insensitive, c.word, false, false)
}

/// **Law.** A rule is refused exactly when one of its patterns does not compile.  The error names the rule
/// and the first such pattern, the trigger before the chain, and says which of the two it is.
pub proof fn law_rule_fault(c: RuleConfig)
    ensures
        rules::rule_fault(c) is None == (trigger_compiles(c) && forall|i: int|
            0 <= i < c.chain@.len() ==> entry_compiles(#[trigger] c.chain@[i])),
        !trigger_compiles(c) ==> rules::rule_fault(c) == Some(
            FaultView::Pattern {
                rule: c.name@,
                pattern: c.pattern@,
                cause: pattern::pattern_error(
                    c.pattern@,
                    c.case_insensitive,
                    c.word,
                    c.multiline,
                    c.multiline,
                ),
            },
        ),
        trigger_compiles(c) ==> forall|i: int|
            #![trigger c.chain@[i]]
            0 <= i < c.chain@.len() && !entry_compiles(c.chain@[i]) && all_compile(c.chain@.take(i))
                ==> rules::rule_fault(c) == Some(
                FaultView::ChainPattern {
                    rule: c.name@,
                    pattern: c.chain@[i].pattern@,
                    cause: pattern::pattern_error(
                        c.chain@[i].pattern@,
                        c.chain@[i].case_insensitive,
                        c.chain@[i].word,
                        false,
                        false,
                    ),
                },
            ),
{
    lemma_chain_fault(c.name@, c.chain@, 0);
    if trigger_compiles(c) {
        assert forall|i: int|
            #![trigger c.chain@[i]]
            0 <= i < c.chain@.len() && !entry_compiles(c.chain@[i]) && all_compile(
                c.chain@.take(i),
            ) implies rules::rule_fault(c) == Some(
            FaultView::ChainPattern {
                rule: c.name@,
                pattern: c.chain@[i].pattern@,
                cause: pattern::pattern_error(
                    c.chain@[i].pattern@,
                    c.chain@[i].case_insensitive,
                    c.chain@[i].word,
                    false,
                    false,
                ),
            },
        ) by {
            assert forall|j: int| 0 <= j < i implies entry_compiles(#[trigger] c.chain@[j]) by {
                assert(c.chain@.take(i)[j] == c.chain@[j]);
            }
            lemma_first_chain_fault(c.name@, c.chain@, 0, i);
        }
    }
}

/// The patterns of all the entries compile.
pub open spec fn all_compile(chain: Seq<ChainConfig>) -> bool {
    forall|i: int| 0 <= i < chain.len() ==> entry_compiles(#[trigger] chain[i])
}

proof fn lemma_chain_fault(rule: Seq<char>, chain: Seq<ChainConfig>, i: int)
    requires
        0 <= i <= chain.len(),
    ensures
        rules::chain_fault(rule, chain, i) is None == (forall|j: int|
            i <= j < chain.len() ==> entry_compiles(#[trigger] chain[j])),
    decreases chain.len() - i,
{
    if i < chain.len() {
        lemma_chain_fault(rule, chain, i + 1);
    }
}

proof fn lemma_first_chain_fault(rule: Seq<char>, chain: Seq<ChainConfig>, i: int, k: int)
    requires
        0 <= i <= k < chain.len(),
        forall|j: int| i <= j < k ==> entry_compiles(#[trigger] chain[j]),
        !entry_compiles(chain[k]),
    ensures
        rules::chain_fault(rule, chain, i) == rules::chain_fault(rule, chain, k),
    decreases k - i,
{
    if i < k {
        assert(entry_compiles(chain[i]));
        lemma_first_chain_fault(rule, chain, i + 1, k);
    }
}

/// **Law.** A list of rules is refused exactly when one of them is, and with the error of the first such
/// rule.
pub proof fn law_rules_fault(configs: Seq<RuleConfig>)
    ensures
        rules::rules_fault(configs, 0) is None == (forall|i: int|
            0 <= i < configs.len() ==> rules::rule_fault(#[trigger] configs[i]) is None),
        forall|i: int|
            #![trigger configs[i]]
            0 <= i < configs.len() && rules::rule_fault(configs[i]) is Some && none_refused(
                configs.take(i),
            ) ==> rules::rules_fault(configs, 0) == rules::rule_fault(configs[i]),
{
    lemma_rules_fault(configs, 0);
    assert forall|i: int|
        #![trigger configs[i]]
        0 <= i < configs.len() && rules::rule_fault(configs[i]) is Some && none_refused(
            configs.take(i),
        ) implies rules::rules_fault(configs, 0) == rules::rule_fault(configs[i]) by {
        assert forall|j: int| 0 <= j < i implies rules::rule_fault(
            #[trigger] configs[j],
        ) is None by {
            assert(configs.take(i)[j] == configs[j]);
        }
        lemma_first_rule_fault(configs, 0, i);
    }
}

/// None of the rules is refused.
pub open spec fn none_refused(configs: Seq<RuleConfig>) -> bool {
    forall|i: int| 0 <= i < configs.len() ==> rules::rule_fault(#[trigger] configs[i]) is None
}

proof fn lemma_rules_fault(configs: Seq<RuleConfig>, i: int)
    requires
        0 <= i <= configs.len(),
    ensures
        rules::rules_fault(configs, i) is None == (forall|j: int|
            i <= j < configs.len() ==> rules::rule_fault(#[trigger] configs[j]) is None),
    decreases configs.len() - i,
{
    if i < configs.len() {
        lemma_rules_fault(configs, i + 1);
    }
}

proof fn lemma_first_rule_fault(configs: Seq<RuleConfig>, i: int, k: int)
    requires
        0 <= i <= k < configs.len(),
        forall|j: int| i <= j < k ==> rules::rule_fault(#[trigger] configs[j]) is None,
        rules::rule_fault(configs[k]) is Some,
    ensures
        rules::rules_fault(configs, i) == rules::rule_fault(configs[k]),
    decreases k - i,
{
    if i < k {
        assert(rules::rule_fault(configs[i]) is None);
        lemma_first_rule_fault(configs, i + 1, k);
    }
}

/// **Law.** The text of an error tells the trigger of a rule from its chain, and names the rule and then the
/// pattern.
pub proof fn law_fault_text(rule: Seq<char>, pattern: Seq<char>, cause: grep::regex::Error)
    ensures
        ({
            let t = rules::fault_text(FaultView::Pattern { rule, pattern, cause });
            &&& ("invalid regex in rule '"@ + rule).is_prefix_of(t)
            &&& t.skip(("invalid regex in rule '"@ + rule).len() as int) == "': "@ + pattern
        }),
        ({
            let t = rules::fault_text(FaultView::ChainPattern { rule, pattern, cause });
            &&& ("invalid chain regex in rule '"@ + rule).is_prefix_of(t)
            &&& t.skip(("invalid chain regex in rule '"@ + rule).len() as int) == "': "@ + pattern
        }),
{
    let a = rules::fault_text(FaultView::Pattern { rule, pattern, cause });
    let x = "invalid regex in rule '"@ + rule;
    assert(x.is_prefix_of(a));
    assert(a.skip(x.len() as int) =~= "': "@ + pattern);
    let b = rules::fault_text(FaultView::ChainPattern { rule, pattern, cause });
    let y = "invalid chain regex in rule '"@ + rule;
    assert(y.is_prefix_of(b));
    assert(b.skip(y.len() as int) =~= "': "@ + pattern);
}

} // verus!
