//! Laws of scanning: claims, search targets, filters and chains.

use crate::engine_spec;
use crate::engine_spec::{HitView, PlaceView, SiteView, SourceView};
use crate::pattern;
use crate::ranges;
use crate::rules;
use crate::rules::{ChainRelationship, ChainedPattern, Rule, SearchTarget};
use crate::scope;
use crate::scope::ScopeNode;
use crate::scope_laws;
use crate::scope_spec;
use crate::scope_spec::ScopeView;
use grep::regex::RegexMatcher;
use vstd::prelude::*;

verus! {

// ---------------------------------------------------------------------------
// Claims
// ---------------------------------------------------------------------------

/// No two hits start at the same place, and each starts at a place that is claimed after them but
/// was not before.
pub open spec fn newly_claimed(hits: Seq<HitView>, before: Set<int>, after: Set<int>) -> bool {
    &&& forall|i: int|
        #![trigger hits[i]]
        0 <= i < hits.len() ==> !before.contains(hits[i].start) && after.contains(hits[i].start)
    &&& forall|i: int, j: int|
        #![trigger hits[i], hits[j]]
        0 <= i < j < hits.len() ==> hits[i].start != hits[j].start
}

proof fn lemma_fresh(spans: Seq<(int, int)>, seen: Set<int>)
    ensures
        forall|i: int|
            #![trigger engine_spec::fresh(spans, seen)[i]]
            0 <= i < engine_spec::fresh(spans, seen).len() ==> !seen.contains(
                engine_spec::fresh(spans, seen)[i].0,
            ) && engine_spec::starts(spans).contains(engine_spec::fresh(spans, seen)[i].0)
                && spans.contains(engine_spec::fresh(spans, seen)[i]),
        forall|i: int, j: int|
            #![trigger engine_spec::fresh(spans, seen)[i], engine_spec::fresh(spans, seen)[j]]
            0 <= i < j < engine_spec::fresh(spans, seen).len() ==> engine_spec::fresh(
                spans,
                seen,
            )[i].0 != engine_spec::fresh(spans, seen)[j].0,
    decreases spans.len(),
{
    if spans.len() > 0 {
        let init = spans.drop_last();
        let last = spans.last();
        lemma_fresh(init, seen);
        let rest = engine_spec::fresh(init, seen);
        let all = engine_spec::fresh(spans, seen);
        assert forall|p: int| engine_spec::starts(init).contains(p) implies engine_spec::starts(
            spans,
        ).contains(p) by {
            let k = choose|k: int| 0 <= k < init.len() && (#[trigger] init[k]).0 == p;
            assert(spans[k].0 == p);
        }
        assert(spans[spans.len() - 1].0 == last.0);
        assert forall|i: int| #![trigger all[i]] 0 <= i < all.len() implies !seen.contains(
            all[i].0,
        ) && engine_spec::starts(spans).contains(all[i].0) && spans.contains(all[i]) by {
            if i < rest.len() {
                assert(all[i] == rest[i]);
                assert(init.contains(rest[i]));
                let k = choose|k: int| 0 <= k < init.len() && init[k] == rest[i];
                assert(spans[k] == rest[i]);
            } else {
                assert(spans[spans.len() - 1] == all[i]);
            }
        }
        assert forall|i: int, j: int| #![trigger all[i], all[j]] 0 <= i < j
            < all.len() implies all[i].0 != all[j].0 by {
            assert(all[i] == rest[i]);
            if j < rest.len() {
                assert(all[j] == rest[j]);
            }
        }
    }
}

proof fn lemma_chained_from(src: SourceView, rule: Rule, site: SiteView, spans: Seq<(int, int)>)
    ensures
        forall|i: int|
            #![trigger engine_spec::chained_hits(src, rule, site, spans)[i]]
            0 <= i < engine_spec::chained_hits(src, rule, site, spans).len() ==> exists|k: int|
                0 <= k < spans.len() && engine_spec::chained_hits(src, rule, site, spans)[i]
                    == engine_spec::hit_at(src, rule, site, #[trigger] spans[k]),
    decreases spans.len(),
{
    if spans.len() > 0 {
        let init = spans.drop_last();
        lemma_chained_from(src, rule, site, init);
        let rest = engine_spec::chained_hits(src, rule, site, init);
        let all = engine_spec::chained_hits(src, rule, site, spans);
        assert forall|i: int| #![trigger all[i]] 0 <= i < all.len() implies exists|k: int|
            0 <= k < spans.len() && all[i] == engine_spec::hit_at(
                src,
                rule,
                site,
                #[trigger] spans[k],
            ) by {
            if i < rest.len() {
                assert(all[i] == rest[i]);
                let k = choose|k: int|
                    0 <= k < init.len() && rest[i] == engine_spec::hit_at(
                        src,
                        rule,
                        site,
                        #[trigger] init[k],
                    );
                assert(spans[k] == init[k]);
            } else {
                assert(spans[spans.len() - 1] == spans.last());
            }
        }
    }
}

proof fn lemma_chained_claimed(
    src: SourceView,
    rule: Rule,
    site: SiteView,
    spans: Seq<(int, int)>,
    before: Set<int>,
    after: Set<int>,
)
    requires
        forall|i: int|
            #![trigger spans[i]]
            0 <= i < spans.len() ==> !before.contains(spans[i].0) && after.contains(spans[i].0),
        forall|i: int, j: int|
            #![trigger spans[i], spans[j]]
            0 <= i < j < spans.len() ==> spans[i].0 != spans[j].0,
    ensures
        newly_claimed(engine_spec::chained_hits(src, rule, site, spans), before, after),
    decreases spans.len(),
{
    if spans.len() > 0 {
        let init = spans.drop_last();
        assert forall|i: int| 0 <= i < init.len() implies #[trigger] init[i] == spans[i] by {}
        lemma_chained_claimed(src, rule, site, init, before, after);
        lemma_chained_from(src, rule, site, init);
        let rest = engine_spec::chained_hits(src, rule, site, init);
        let all = engine_spec::chained_hits(src, rule, site, spans);
        assert(spans.last() == spans[spans.len() - 1]);
        assert forall|i: int| #![trigger all[i]] 0 <= i < all.len() implies !before.contains(
            all[i].start,
        ) && after.contains(all[i].start) by {
            if i < rest.len() {
                assert(all[i] == rest[i]);
            }
        }
        assert forall|i: int, j: int| #![trigger all[i], all[j]] 0 <= i < j
            < all.len() implies all[i].start != all[j].start by {
            assert(all[i] == rest[i]);
            if j < rest.len() {
                assert(all[j] == rest[j]);
            } else {
                let k = choose|k: int|
                    0 <= k < init.len() && rest[i] == engine_spec::hit_at(
                        src,
                        rule,
                        site,
                        #[trigger] init[k],
                    );
                assert(spans[k] == init[k]);
            }
        }
    }
}

proof fn lemma_claimed_concat(
    a: Seq<HitView>,
    b: Seq<HitView>,
    before: Set<int>,
    mid: Set<int>,
    after: Set<int>,
)
    requires
        newly_claimed(a, before, mid),
        newly_claimed(b, mid, after),
        before.subset_of(mid),
        mid.subset_of(after),
    ensures
        newly_claimed(a + b, before, after),
{
    let all = a + b;
    assert forall|i: int| #![trigger all[i]] 0 <= i < all.len() implies !before.contains(
        all[i].start,
    ) && after.contains(all[i].start) by {
        if i < a.len() {
            assert(all[i] == a[i]);
        } else {
            assert(all[i] == b[i - a.len()]);
        }
    }
    assert forall|i: int, j: int| #![trigger all[i], all[j]] 0 <= i < j < all.len() implies all[i].start
        != all[j].start by {
        if j < a.len() {
            assert(all[i] == a[i] && all[j] == a[j]);
        } else if i >= a.len() {
            assert(all[i] == b[i - a.len()] && all[j] == b[j - a.len()]);
        } else {
            assert(all[i] == a[i] && all[j] == b[j - a.len()]);
        }
    }
}

proof fn lemma_tree_claimed(
    src: SourceView,
    rule: Rule,
    node: ScopeView,
    ancestors: Seq<ScopeView>,
    path: Seq<Seq<char>>,
    seen: Set<int>,
)
    ensures
        seen.subset_of(engine_spec::tree_hits(src, rule, node, ancestors, path, seen).1),
        newly_claimed(
            engine_spec::tree_hits(src, rule, node, ancestors, path, seen).0,
            seen,
            engine_spec::tree_hits(src, rule, node, ancestors, path, seen).1,
        ),
    decreases node, 0int,
{
    let site = engine_spec::site_of(node, ancestors, path);
    let n = node.children.len() as int;
    lemma_forest_claimed(src, rule, node.children, n, ancestors.push(node), site.path, seen);
    let inner = engine_spec::forest_hits(
        src,
        rule,
        node.children,
        n,
        ancestors.push(node),
        site.path,
        seen,
    );
    let own = engine_spec::scope_candidates(src, rule, site);
    let after = inner.1.union(engine_spec::starts(own));
    lemma_fresh(own, inner.1);
    lemma_chained_claimed(src, rule, site, engine_spec::fresh(own, inner.1), inner.1, after);
    lemma_claimed_concat(
        inner.0,
        engine_spec::chained_hits(src, rule, site, engine_spec::fresh(own, inner.1)),
        seen,
        inner.1,
        after,
    );
}

proof fn lemma_forest_claimed(
    src: SourceView,
    rule: Rule,
    nodes: Seq<ScopeView>,
    n: int,
    ancestors: Seq<ScopeView>,
    path: Seq<Seq<char>>,
    seen: Set<int>,
)
    ensures
        seen.subset_of(engine_spec::forest_hits(src, rule, nodes, n, ancestors, path, seen).1),
        newly_claimed(
            engine_spec::forest_hits(src, rule, nodes, n, ancestors, path, seen).0,
            seen,
            engine_spec::forest_hits(src, rule, nodes, n, ancestors, path, seen).1,
        ),
    decreases nodes, n,
{
    if 0 < n <= nodes.len() {
        lemma_forest_claimed(src, rule, nodes, n - 1, ancestors, path, seen);
        let before = engine_spec::forest_hits(src, rule, nodes, n - 1, ancestors, path, seen);
        lemma_tree_claimed(src, rule, nodes[n - 1], ancestors, path, before.1);
        let last = engine_spec::tree_hits(src, rule, nodes[n - 1], ancestors, path, before.1);
        lemma_claimed_concat(before.0, last.0, seen, before.1, last.1);
    }
}

/// **Law.** A rule reports each position of a source at most once.
pub proof fn law_reported_once(src: SourceView, tree: ScopeView, rule: Rule, i: int, j: int)
    requires
        0 <= i < j < engine_spec::rule_hits(src, tree, rule).len(),
    ensures
        engine_spec::rule_hits(src, tree, rule)[i].start != engine_spec::rule_hits(
            src,
            tree,
            rule,
        )[j].start,
{
    lemma_tree_claimed(src, rule, tree, seq![], seq![], Set::empty());
}

/// The positions at which the trigger is found in a scope or in one of the scopes in it.
pub open spec fn tree_starts(
    src: SourceView,
    rule: Rule,
    node: ScopeView,
    ancestors: Seq<ScopeView>,
    path: Seq<Seq<char>>,
) -> Set<int>
    decreases node, 0int,
{
    let site = engine_spec::site_of(node, ancestors, path);
    forest_starts(
        src,
        rule,
        node.children,
        node.children.len() as int,
        ancestors.push(node),
        site.path,
    ).union(engine_spec::starts(engine_spec::scope_candidates(src, rule, site)))
}

/// The positions at which the trigger is found in the first `n` of the scopes.
pub open spec fn forest_starts(
    src: SourceView,
    rule: Rule,
    nodes: Seq<ScopeView>,
    n: int,
    ancestors: Seq<ScopeView>,
    path: Seq<Seq<char>>,
) -> Set<int>
    decreases nodes, n,
{
    if n <= 0 || n > nodes.len() {
        Set::empty()
    } else {
        forest_starts(src, rule, nodes, n - 1, ancestors, path).union(
            tree_starts(src, rule, nodes[n - 1], ancestors, path),
        )
    }
}

/// **Law.** A scope claims every position at which the trigger is found in it or in a scope inside
/// it, and nothing else.
pub proof fn law_claims(
    src: SourceView,
    rule: Rule,
    node: ScopeView,
    ancestors: Seq<ScopeView>,
    path: Seq<Seq<char>>,
    seen: Set<int>,
)
    ensures
        engine_spec::tree_hits(src, rule, node, ancestors, path, seen).1 == seen.union(
            tree_starts(src, rule, node, ancestors, path),
        ),
    decreases node, 0int,
{
    let site = engine_spec::site_of(node, ancestors, path);
    lemma_forest_claims(
        src,
        rule,
        node.children,
        node.children.len() as int,
        ancestors.push(node),
        site.path,
        seen,
    );
    assert(engine_spec::tree_hits(src, rule, node, ancestors, path, seen).1 =~= seen.union(
        tree_starts(src, rule, node, ancestors, path),
    ));
}

proof fn lemma_forest_claims(
    src: SourceView,
    rule: Rule,
    nodes: Seq<ScopeView>,
    n: int,
    ancestors: Seq<ScopeView>,
    path: Seq<Seq<char>>,
    seen: Set<int>,
)
    ensures
        engine_spec::forest_hits(src, rule, nodes, n, ancestors, path, seen).1 == seen.union(
            forest_starts(src, rule, nodes, n, ancestors, path),
        ),
    decreases nodes, n,
{
    if 0 < n <= nodes.len() {
        lemma_forest_claims(src, rule, nodes, n - 1, ancestors, path, seen);
        let before = engine_spec::forest_hits(src, rule, nodes, n - 1, ancestors, path, seen);
        law_claims(src, rule, nodes[n - 1], ancestors, path, before.1);
    }
    assert(engine_spec::forest_hits(src, rule, nodes, n, ancestors, path, seen).1 =~= seen.union(
        forest_starts(src, rule, nodes, n, ancestors, path),
    ));
}

/// **Law.** A match belongs to the innermost scope that the rule searches: what a scope itself
/// reports never starts where the trigger is found in a scope inside it.
pub proof fn law_innermost_scope(
    src: SourceView,
    rule: Rule,
    node: ScopeView,
    ancestors: Seq<ScopeView>,
    path: Seq<Seq<char>>,
    seen: Set<int>,
)
    ensures
        ({
            let site = engine_spec::site_of(node, ancestors, path);
            let n = node.children.len() as int;
            let inner = engine_spec::forest_hits(
                src,
                rule,
                node.children,
                n,
                ancestors.push(node),
                site.path,
                seen,
            );
            let all = engine_spec::tree_hits(src, rule, node, ancestors, path, seen);
            &&& inner.0.len() <= all.0.len()
            &&& all.0.take(inner.0.len() as int) == inner.0
            &&& forall|i: int|
                #![trigger all.0[i]]
                inner.0.len() <= i < all.0.len() ==> all.0[i].scope_path == site.path
                    && !forest_starts(
                    src,
                    rule,
                    node.children,
                    n,
                    ancestors.push(node),
                    site.path,
                ).contains(all.0[i].start)
        }),
{
    let site = engine_spec::site_of(node, ancestors, path);
    let n = node.children.len() as int;
    let inner = engine_spec::forest_hits(
        src,
        rule,
        node.children,
        n,
        ancestors.push(node),
        site.path,
        seen,
    );
    let all = engine_spec::tree_hits(src, rule, node, ancestors, path, seen);
    let own = engine_spec::scope_candidates(src, rule, site);
    let spans = engine_spec::fresh(own, inner.1);
    let hits = engine_spec::chained_hits(src, rule, site, spans);
    lemma_fresh(own, inner.1);
    lemma_chained_from(src, rule, site, spans);
    lemma_forest_claims(src, rule, node.children, n, ancestors.push(node), site.path, seen);
    assert(all.0 == inner.0 + hits);
    assert(all.0.take(inner.0.len() as int) =~= inner.0);
    assert forall|i: int|
        #![trigger all.0[i]]
        inner.0.len() <= i < all.0.len() implies all.0[i].scope_path == site.path
        && !forest_starts(
        src,
        rule,
        node.children,
        n,
        ancestors.push(node),
        site.path,
    ).contains(all.0[i].start) by {
        let h = i - inner.0.len();
        assert(all.0[i] == hits[h]);
        let k = choose|k: int|
            0 <= k < spans.len() && hits[h] == engine_spec::hit_at(
                src,
                rule,
                site,
                #[trigger] spans[k],
            );
        assert(!inner.1.contains(spans[k].0));
    }
}

// ---------------------------------------------------------------------------
// What a hit covers
// ---------------------------------------------------------------------------

/// The span lies in the source and covers only bytes that the target lets the rule search.
pub open spec fn on_target(src: SourceView, target: SearchTarget, span: (int, int)) -> bool {
    &&& 0 <= span.0 <= span.1 <= src.bytes.len()
    &&& forall|q: int|
        span.0 <= q < span.1 ==> match target {
            SearchTarget::All => true,
            SearchTarget::Comments => #[trigger] ranges::covers(src.comments, q),
            SearchTarget::Code => ranges::is_code(src.comments, src.strings, q),
        }
}

/// The hit is on target, has the context of its place, and stands in a scope that the filter of
/// the rule accepts.
pub open spec fn is_proper(src: SourceView, rule: Rule, hit: HitView) -> bool {
    &&& on_target(src, rule.search_target, (hit.start, hit.end))
    &&& hit.context == engine_spec::target_context(src, rule.search_target, hit.start)
    &&& rule.scope_filter matches Some(filter) ==> rules::filter_matches(
        filter@,
        hit.scope_path,
    )
}

/// All hits are proper.
pub open spec fn all_proper(src: SourceView, rule: Rule, hits: Seq<HitView>) -> bool {
    forall|i: int| 0 <= i < hits.len() ==> is_proper(src, rule, #[trigger] hits[i])
}

/// No scope of the tree starts before the source.
spec fn starts_in_source(node: ScopeView) -> bool
    decreases node,
{
    &&& node.body_start >= 0
    &&& forall|i: int|
        #![trigger node.children[i]]
        0 <= i < node.children.len() ==> starts_in_source(node.children[i])
}

proof fn lemma_starts_in_source(node: ScopeNode)
    ensures
        starts_in_source(node@),
    decreases node,
{
    scope::lemma_child_views(node);
    assert forall|i: int|
        #![trigger node@.children[i]]
        0 <= i < node@.children.len() implies starts_in_source(node@.children[i]) by {
        assert(node@.children[i] == node.children@[i]@);
        lemma_starts_in_source(node.children@[i]);
    }
}

proof fn lemma_clipped_covered(v: Seq<(int, int)>, body: (int, int), i: int, q: int)
    requires
        0 <= i < ranges::clipped(v, body).len(),
        ranges::clipped(v, body)[i].0 <= q < ranges::clipped(v, body)[i].1,
    ensures
        ranges::covers(v, q),
    decreases v.len(),
{
    if v.len() > 0 {
        let init = v.drop_last();
        let rest = ranges::clipped(init, body);
        if i < rest.len() {
            assert(ranges::clipped(v, body)[i] == rest[i]);
            lemma_clipped_covered(init, body, i, q);
            let k = choose|k: int| 0 <= k < init.len() && (#[trigger] init[k]).0 <= q < init[k].1;
            assert(v[k].0 <= q < v[k].1);
        } else {
            assert(v[v.len() - 1].0 <= q < v[v.len() - 1].1);
        }
    }
}

proof fn lemma_candidate_part(
    bytes: Seq<u8>,
    matcher: RegexMatcher,
    parts: Seq<(int, int)>,
    i: int,
) -> (k: int)
    requires
        pattern::finds_in_order(matcher),
        forall|k: int|
            #![trigger parts[k]]
            0 <= k < parts.len() ==> 0 <= parts[k].0 <= parts[k].1 <= bytes.len(),
        0 <= i < engine_spec::candidates(bytes, matcher, parts).len(),
    ensures
        0 <= k < parts.len(),
        parts[k].0 <= engine_spec::candidates(bytes, matcher, parts)[i].0
            <= engine_spec::candidates(bytes, matcher, parts)[i].1 <= parts[k].1,
    decreases parts.len(),
{
    let init = parts.drop_last();
    assert forall|k: int| 0 <= k < init.len() implies #[trigger] init[k] == parts[k] by {}
    let rest = engine_spec::candidates(bytes, matcher, init);
    let all = engine_spec::candidates(bytes, matcher, parts);
    if i < rest.len() {
        assert(all[i] == rest[i]);
        lemma_candidate_part(bytes, matcher, init, i)
    } else {
        let last = parts.len() - 1;
        let part = parts[last];
        assert(parts.last() == part);
        let haystack = bytes.subrange(part.0, part.1);
        let spans = pattern::matched_spans(matcher, haystack);
        assert(pattern::spans_ordered(spans, haystack.len() as int));
        assert(all[i] == engine_spec::shifted(spans, part.0)[i - rest.len()]);
        assert(0 <= spans[i - rest.len()].0 <= spans[i - rest.len()].1 <= haystack.len());
        last
    }
}

proof fn lemma_candidates_on_target(src: SourceView, rule: Rule, site: SiteView, i: int)
    requires
        ranges::disjoint_sorted(src.comments),
        pattern::finds_in_order(rule.matcher),
        site.node.body_start >= 0,
        0 <= i < engine_spec::scope_candidates(src, rule, site).len(),
    ensures
        on_target(
            src,
            rule.search_target,
            engine_spec::scope_candidates(src, rule, site)[i],
        ),
{
    let body = scope_spec::body_of(site.node);
    let parts = engine_spec::target_ranges(src, rule.search_target, body);
    let span = engine_spec::scope_candidates(src, rule, site)[i];
    match rule.search_target {
        SearchTarget::All => {},
        SearchTarget::Comments => {
            ranges::lemma_clipped_within(src.comments, body);
        },
        SearchTarget::Code => {
            ranges::law_code_gaps_maximal(src.comments, src.strings, body);
        },
    }
    assert forall|k: int| #![trigger parts[k]] 0 <= k < parts.len() implies 0 <= parts[k].0
        <= parts[k].1 <= src.bytes.len() by {}
    let k = lemma_candidate_part(src.bytes, rule.matcher, parts, i);
    assert forall|q: int| span.0 <= q < span.1 implies match rule.search_target {
        SearchTarget::All => true,
        SearchTarget::Comments => #[trigger] ranges::covers(src.comments, q),
        SearchTarget::Code => ranges::is_code(src.comments, src.strings, q),
    } by {
        match rule.search_target {
            SearchTarget::All => {},
            SearchTarget::Comments => {
                lemma_clipped_covered(src.comments, body, k, q);
            },
            SearchTarget::Code => {
                assert(parts[k].0 <= q < parts[k].1);
                assert(ranges::covers(parts, q));
                ranges::law_code_gaps_complement(src.comments, src.strings, body, q);
            },
        }
    }
}

proof fn lemma_tree_proper(
    src: SourceView,
    rule: Rule,
    node: ScopeView,
    ancestors: Seq<ScopeView>,
    path: Seq<Seq<char>>,
    seen: Set<int>,
)
    requires
        ranges::disjoint_sorted(src.comments),
        pattern::finds_in_order(rule.matcher),
        starts_in_source(node),
    ensures
        all_proper(src, rule, engine_spec::tree_hits(src, rule, node, ancestors, path, seen).0),
    decreases node, 0int,
{
    let site = engine_spec::site_of(node, ancestors, path);
    let n = node.children.len() as int;
    lemma_forest_proper(src, rule, node.children, n, ancestors.push(node), site.path, seen);
    let inner = engine_spec::forest_hits(
        src,
        rule,
        node.children,
        n,
        ancestors.push(node),
        site.path,
        seen,
    );
    let own = engine_spec::scope_candidates(src, rule, site);
    let spans = engine_spec::fresh(own, inner.1);
    let hits = engine_spec::chained_hits(src, rule, site, spans);
    lemma_fresh(own, inner.1);
    lemma_chained_from(src, rule, site, spans);
    let all = engine_spec::tree_hits(src, rule, node, ancestors, path, seen).0;
    assert(all == inner.0 + hits);
    assert forall|i: int| 0 <= i < all.len() implies is_proper(src, rule, #[trigger] all[i]) by {
        if i < inner.0.len() {
            assert(all[i] == inner.0[i]);
        } else {
            let h = i - inner.0.len();
            assert(all[i] == hits[h]);
            let k = choose|k: int|
                0 <= k < spans.len() && hits[h] == engine_spec::hit_at(
                    src,
                    rule,
                    site,
                    #[trigger] spans[k],
                );
            assert(own.contains(spans[k]));
            let j = choose|j: int| 0 <= j < own.len() && own[j] == spans[k];
            lemma_candidates_on_target(src, rule, site, j);
        }
    }
}

proof fn lemma_forest_proper(
    src: SourceView,
    rule: Rule,
    nodes: Seq<ScopeView>,
    n: int,
    ancestors: Seq<ScopeView>,
    path: Seq<Seq<char>>,
    seen: Set<int>,
)
    requires
        ranges::disjoint_sorted(src.comments),
        pattern::finds_in_order(rule.matcher),
        forall|i: int| #![trigger nodes[i]] 0 <= i < nodes.len() ==> starts_in_source(nodes[i]),
    ensures
        all_proper(
            src,
            rule,
            engine_spec::forest_hits(src, rule, nodes, n, ancestors, path, seen).0,
        ),
    decreases nodes, n,
{
    if 0 < n <= nodes.len() {
        lemma_forest_proper(src, rule, nodes, n - 1, ancestors, path, seen);
        let before = engine_spec::forest_hits(src, rule, nodes, n - 1, ancestors, path, seen);
        lemma_tree_proper(src, rule, nodes[n - 1], ancestors, path, before.1);
        let last = engine_spec::tree_hits(src, rule, nodes[n - 1], ancestors, path, before.1);
        let all = before.0 + last.0;
        assert forall|i: int| 0 <= i < all.len() implies is_proper(
            src,
            rule,
            #[trigger] all[i],
        ) by {
            if i < before.0.len() {
                assert(all[i] == before.0[i]);
            } else {
                assert(all[i] == last.0[i - before.0.len()]);
            }
        }
    }
}

/// **Law.** Every hit lies in the source and covers only what its rule searches: code that is
/// neither comment nor string, comments alone, or anything.  It carries the context of its place,
/// and its scope path is one that the filter of the rule accepts.
pub proof fn law_hits_proper(src: SourceView, tree: ScopeNode, rule: Rule)
    requires
        ranges::disjoint_sorted(src.comments),
        pattern::finds_in_order(rule.matcher),
    ensures
        all_proper(src, rule, engine_spec::rule_hits(src, tree@, rule)),
{
    lemma_starts_in_source(tree);
    lemma_tree_proper(src, rule, tree@, seq![], seq![], Set::empty());
}

// ---------------------------------------------------------------------------
// When a rule fires
// ---------------------------------------------------------------------------

/// The site is that of a scope in the tree under `node`, or of `node` itself.
pub open spec fn site_in_tree(
    node: ScopeView,
    ancestors: Seq<ScopeView>,
    path: Seq<Seq<char>>,
    site: SiteView,
) -> bool
    decreases node,
{
    let own = engine_spec::site_of(node, ancestors, path);
    ||| site == own
    ||| exists|i: int|
        0 <= i < node.children.len() && site_in_tree(
            #[trigger] node.children[i],
            ancestors.push(node),
            own.path,
            site,
        )
}

/// The hit is justified by the site: the rule searches its scope, finds the trigger there, and the
/// whole chain holds.
pub open spec fn is_justified(src: SourceView, rule: Rule, site: SiteView, hit: HitView) -> bool {
    let span = (hit.start, hit.end);
    &&& engine_spec::is_searched(src, rule, site)
    &&& engine_spec::scope_candidates(src, rule, site).contains(span)
    &&& engine_spec::chain_holds(src, engine_spec::place(site, span), rule.chain@)
    &&& hit == engine_spec::hit_at(src, rule, site, span)
}

/// Some scope under `node` justifies the hit.
pub open spec fn is_justified_in(
    src: SourceView,
    rule: Rule,
    node: ScopeView,
    ancestors: Seq<ScopeView>,
    path: Seq<Seq<char>>,
    hit: HitView,
) -> bool {
    exists|site: SiteView| #[trigger]
        site_in_tree(node, ancestors, path, site) && is_justified(src, rule, site, hit)
}

proof fn lemma_chained_hold(
    src: SourceView,
    rule: Rule,
    site: SiteView,
    spans: Seq<(int, int)>,
    i: int,
) -> (k: int)
    requires
        0 <= i < engine_spec::chained_hits(src, rule, site, spans).len(),
    ensures
        0 <= k < spans.len(),
        engine_spec::chained_hits(src, rule, site, spans)[i] == engine_spec::hit_at(
            src,
            rule,
            site,
            spans[k],
        ),
        engine_spec::chain_holds(src, engine_spec::place(site, spans[k]), rule.chain@),
    decreases spans.len(),
{
    let init = spans.drop_last();
    let rest = engine_spec::chained_hits(src, rule, site, init);
    if i < rest.len() {
        assert(engine_spec::chained_hits(src, rule, site, spans)[i] == rest[i]);
        lemma_chained_hold(src, rule, site, init, i)
    } else {
        spans.len() - 1
    }
}

proof fn lemma_tree_justified(
    src: SourceView,
    rule: Rule,
    node: ScopeView,
    ancestors: Seq<ScopeView>,
    path: Seq<Seq<char>>,
    seen: Set<int>,
    i: int,
)
    requires
        0 <= i < engine_spec::tree_hits(src, rule, node, ancestors, path, seen).0.len(),
    ensures
        is_justified_in(
            src,
            rule,
            node,
            ancestors,
            path,
            engine_spec::tree_hits(src, rule, node, ancestors, path, seen).0[i],
        ),
    decreases node, 0int,
{
    let site = engine_spec::site_of(node, ancestors, path);
    let n = node.children.len() as int;
    let inner = engine_spec::forest_hits(
        src,
        rule,
        node.children,
        n,
        ancestors.push(node),
        site.path,
        seen,
    );
    let own = engine_spec::scope_candidates(src, rule, site);
    let spans = engine_spec::fresh(own, inner.1);
    let hits = engine_spec::chained_hits(src, rule, site, spans);
    let all = engine_spec::tree_hits(src, rule, node, ancestors, path, seen).0;
    assert(all == inner.0 + hits);
    if i < inner.0.len() {
        assert(all[i] == inner.0[i]);
        let k = lemma_forest_justified(
            src,
            rule,
            node.children,
            n,
            ancestors.push(node),
            site.path,
            seen,
            i,
        );
        let found = choose|found: SiteView| #[trigger]
            site_in_tree(node.children[k], ancestors.push(node), site.path, found)
                && is_justified(src, rule, found, all[i]);
        assert(site_in_tree(node, ancestors, path, found));
    } else {
        let h = i - inner.0.len();
        assert(all[i] == hits[h]);
        lemma_fresh(own, inner.1);
        let k = lemma_chained_hold(src, rule, site, spans, h);
        assert(own.contains(spans[k]));
        assert(site_in_tree(node, ancestors, path, site));
        assert(is_justified(src, rule, site, all[i]));
    }
}

proof fn lemma_forest_justified(
    src: SourceView,
    rule: Rule,
    nodes: Seq<ScopeView>,
    n: int,
    ancestors: Seq<ScopeView>,
    path: Seq<Seq<char>>,
    seen: Set<int>,
    i: int,
) -> (k: int)
    requires
        0 <= i < engine_spec::forest_hits(src, rule, nodes, n, ancestors, path, seen).0.len(),
    ensures
        0 <= k < nodes.len(),
        is_justified_in(
            src,
            rule,
            nodes[k],
            ancestors,
            path,
            engine_spec::forest_hits(src, rule, nodes, n, ancestors, path, seen).0[i],
        ),
    decreases nodes, n,
{
    let before = engine_spec::forest_hits(src, rule, nodes, n - 1, ancestors, path, seen);
    let last = engine_spec::tree_hits(src, rule, nodes[n - 1], ancestors, path, before.1);
    let all = engine_spec::forest_hits(src, rule, nodes, n, ancestors, path, seen).0;
    if i < before.0.len() {
        assert(all[i] == before.0[i]);
        lemma_forest_justified(src, rule, nodes, n - 1, ancestors, path, seen, i)
    } else {
        assert(all[i] == last.0[i - before.0.len()]);
        lemma_tree_justified(
            src,
            rule,
            nodes[n - 1],
            ancestors,
            path,
            before.1,
            i - before.0.len(),
        );
        n - 1
    }
}

/// **Law.** A rule fires only where it should: every hit lies in a scope of the tree that the rule
/// searches, at a match of its trigger, and every entry of its chain holds there.
pub proof fn law_hits_justified(src: SourceView, tree: ScopeView, rule: Rule, i: int)
    requires
        0 <= i < engine_spec::rule_hits(src, tree, rule).len(),
    ensures
        is_justified_in(
            src,
            rule,
            tree,
            seq![],
            seq![],
            engine_spec::rule_hits(src, tree, rule)[i],
        ),
{
    lemma_tree_justified(src, rule, tree, seq![], seq![], Set::empty(), i);
}

/// One of the hits starts at `p`.
pub open spec fn hit_starts_at(hits: Seq<HitView>, p: int) -> bool {
    exists|i: int| 0 <= i < hits.len() && (#[trigger] hits[i]).start == p
}

proof fn lemma_fresh_complete(spans: Seq<(int, int)>, seen: Set<int>, p: int)
    requires
        engine_spec::starts(spans).contains(p),
        !seen.contains(p),
    ensures
        engine_spec::starts(engine_spec::fresh(spans, seen)).contains(p),
    decreases spans.len(),
{
    let init = spans.drop_last();
    let last = spans.last();
    let rest = engine_spec::fresh(init, seen);
    let all = engine_spec::fresh(spans, seen);
    let j = choose|j: int| 0 <= j < spans.len() && (#[trigger] spans[j]).0 == p;
    if engine_spec::starts(init).contains(p) {
        lemma_fresh_complete(init, seen, p);
        let k = choose|k: int| 0 <= k < rest.len() && (#[trigger] rest[k]).0 == p;
        assert(all[k] == rest[k]);
    } else {
        if j < init.len() {
            assert(init[j].0 == p);
        }
        assert(last.0 == p);
        assert(all[all.len() - 1] == last);
    }
}

proof fn lemma_unchained(
    src: SourceView,
    rule: Rule,
    site: SiteView,
    spans: Seq<(int, int)>,
    p: int,
)
    requires
        rule.chain@.len() == 0,
        engine_spec::starts(spans).contains(p),
    ensures
        hit_starts_at(engine_spec::chained_hits(src, rule, site, spans), p),
    decreases spans.len(),
{
    let init = spans.drop_last();
    let rest = engine_spec::chained_hits(src, rule, site, init);
    let all = engine_spec::chained_hits(src, rule, site, spans);
    let j = choose|j: int| 0 <= j < spans.len() && (#[trigger] spans[j]).0 == p;
    assert(all == rest.push(engine_spec::hit_at(src, rule, site, spans.last())));
    if j < init.len() {
        assert(init[j].0 == p);
        lemma_unchained(src, rule, site, init, p);
        let k = choose|k: int| 0 <= k < rest.len() && (#[trigger] rest[k]).start == p;
        assert(all[k] == rest[k]);
    } else {
        assert(all[all.len() - 1].start == p);
    }
}

proof fn lemma_hit_starts_concat(a: Seq<HitView>, b: Seq<HitView>, p: int)
    requires
        hit_starts_at(a, p) || hit_starts_at(b, p),
    ensures
        hit_starts_at(a + b, p),
{
    if hit_starts_at(a, p) {
        let k = choose|k: int| 0 <= k < a.len() && (#[trigger] a[k]).start == p;
        assert((a + b)[k].start == p);
    } else {
        let k = choose|k: int| 0 <= k < b.len() && (#[trigger] b[k]).start == p;
        assert((a + b)[a.len() + k].start == p);
    }
}

proof fn lemma_tree_complete(
    src: SourceView,
    rule: Rule,
    node: ScopeView,
    ancestors: Seq<ScopeView>,
    path: Seq<Seq<char>>,
    seen: Set<int>,
    p: int,
)
    requires
        rule.chain@.len() == 0,
        engine_spec::tree_hits(src, rule, node, ancestors, path, seen).1.contains(p),
        !seen.contains(p),
    ensures
        hit_starts_at(engine_spec::tree_hits(src, rule, node, ancestors, path, seen).0, p),
    decreases node, 0int,
{
    let site = engine_spec::site_of(node, ancestors, path);
    let n = node.children.len() as int;
    let inner = engine_spec::forest_hits(
        src,
        rule,
        node.children,
        n,
        ancestors.push(node),
        site.path,
        seen,
    );
    let own = engine_spec::scope_candidates(src, rule, site);
    let spans = engine_spec::fresh(own, inner.1);
    if inner.1.contains(p) {
        lemma_forest_complete(
            src,
            rule,
            node.children,
            n,
            ancestors.push(node),
            site.path,
            seen,
            p,
        );
    } else {
        lemma_fresh_complete(own, inner.1, p);
        lemma_unchained(src, rule, site, spans, p);
    }
    lemma_hit_starts_concat(inner.0, engine_spec::chained_hits(src, rule, site, spans), p);
}

proof fn lemma_forest_complete(
    src: SourceView,
    rule: Rule,
    nodes: Seq<ScopeView>,
    n: int,
    ancestors: Seq<ScopeView>,
    path: Seq<Seq<char>>,
    seen: Set<int>,
    p: int,
)
    requires
        rule.chain@.len() == 0,
        engine_spec::forest_hits(src, rule, nodes, n, ancestors, path, seen).1.contains(p),
        !seen.contains(p),
    ensures
        hit_starts_at(
            engine_spec::forest_hits(src, rule, nodes, n, ancestors, path, seen).0,
            p,
        ),
    decreases nodes, n,
{
    if 0 < n <= nodes.len() {
        let before = engine_spec::forest_hits(src, rule, nodes, n - 1, ancestors, path, seen);
        let last = engine_spec::tree_hits(src, rule, nodes[n - 1], ancestors, path, before.1);
        if before.1.contains(p) {
            lemma_forest_complete(src, rule, nodes, n - 1, ancestors, path, seen, p);
        } else {
            lemma_tree_complete(src, rule, nodes[n - 1], ancestors, path, before.1, p);
        }
        lemma_hit_starts_concat(before.0, last.0, p);
    }
}

/// **Law.** A rule without a chain fires everywhere it should: the positions it reports are exactly
/// those at which its trigger is found in a scope that it searches.
pub proof fn law_unchained_rule_complete(src: SourceView, tree: ScopeView, rule: Rule, p: int)
    requires
        rule.chain@.len() == 0,
    ensures
        hit_starts_at(engine_spec::rule_hits(src, tree, rule), p) == tree_starts(
            src,
            rule,
            tree,
            seq![],
            seq![],
        ).contains(p),
{
    law_claims(src, rule, tree, seq![], seq![], Set::empty());
    lemma_tree_claimed(src, rule, tree, seq![], seq![], Set::empty());
    if tree_starts(src, rule, tree, seq![], seq![]).contains(p) {
        lemma_tree_complete(src, rule, tree, seq![], seq![], Set::empty(), p);
    }
}

// ---------------------------------------------------------------------------
// Which scope decides
// ---------------------------------------------------------------------------

/// The trigger is found at `p` in the scope.
pub open spec fn finds(src: SourceView, rule: Rule, site: SiteView, p: int) -> bool {
    engine_spec::starts(engine_spec::scope_candidates(src, rule, site)).contains(p)
}

/// The first of the spans that starts at `p`.
pub open spec fn first_at(spans: Seq<(int, int)>, p: int) -> (int, int)
    decreases spans.len(),
{
    if spans.len() == 0 {
        (p, p)
    } else if spans[0].0 == p {
        spans[0]
    } else {
        first_at(spans.skip(1), p)
    }
}

/// The match of the trigger at `p` in the scope.
pub open spec fn span_at(src: SourceView, rule: Rule, site: SiteView, p: int) -> (int, int) {
    first_at(engine_spec::scope_candidates(src, rule, site), p)
}

/// The scope that claims `p`: the first one, inner scopes before outer ones, in which the trigger
/// is found there.
pub open spec fn claimant(
    src: SourceView,
    rule: Rule,
    node: ScopeView,
    ancestors: Seq<ScopeView>,
    path: Seq<Seq<char>>,
    p: int,
) -> Option<SiteView>
    decreases node, 0int,
{
    let site = engine_spec::site_of(node, ancestors, path);
    let inner = forest_claimant(
        src,
        rule,
        node.children,
        node.children.len() as int,
        ancestors.push(node),
        site.path,
        p,
    );
    if inner is Some {
        inner
    } else if finds(src, rule, site, p) {
        Some(site)
    } else {
        None
    }
}

/// The scope that claims `p` among the first `n` of the scopes and those in them.
pub open spec fn forest_claimant(
    src: SourceView,
    rule: Rule,
    nodes: Seq<ScopeView>,
    n: int,
    ancestors: Seq<ScopeView>,
    path: Seq<Seq<char>>,
    p: int,
) -> Option<SiteView>
    decreases nodes, n,
{
    if n <= 0 || n > nodes.len() {
        None
    } else {
        let before = forest_claimant(src, rule, nodes, n - 1, ancestors, path, p);
        if before is Some {
            before
        } else {
            claimant(src, rule, nodes[n - 1], ancestors, path, p)
        }
    }
}

/// What the hits say of position `p`, where `site` claims it: the hit there, if the chain holds,
/// and otherwise none.
pub open spec fn decided_by(
    src: SourceView,
    rule: Rule,
    hits: Seq<HitView>,
    site: SiteView,
    p: int,
) -> bool {
    let span = span_at(src, rule, site, p);
    if engine_spec::chain_holds(src, engine_spec::place(site, span), rule.chain@) {
        hits.contains(engine_spec::hit_at(src, rule, site, span))
    } else {
        !hit_starts_at(hits, p)
    }
}

proof fn lemma_first_at_push(spans: Seq<(int, int)>, last: (int, int), p: int)
    ensures
        engine_spec::starts(spans).contains(p) ==> first_at(spans.push(last), p) == first_at(
            spans,
            p,
        ),
        !engine_spec::starts(spans).contains(p) && last.0 == p ==> first_at(spans.push(last), p)
            == last,
    decreases spans.len(),
{
    let all = spans.push(last);
    if spans.len() == 0 {
        assert(!engine_spec::starts(spans).contains(p));
    } else {
        let rest = spans.skip(1);
        assert(all[0] == spans[0]);
        assert(all.skip(1) =~= rest.push(last));
        lemma_first_at_push(rest, last, p);
        if spans[0].0 == p {
            assert(engine_spec::starts(spans).contains(p));
        } else {
            if engine_spec::starts(spans).contains(p) {
                let k = choose|k: int| 0 <= k < spans.len() && (#[trigger] spans[k]).0 == p;
                assert(rest[k - 1].0 == p);
            }
            if engine_spec::starts(rest).contains(p) {
                let k = choose|k: int| 0 <= k < rest.len() && (#[trigger] rest[k]).0 == p;
                assert(spans[k + 1].0 == p);
            }
        }
    }
}

/// A span that is not left out is the first one with its start.
proof fn lemma_fresh_first(spans: Seq<(int, int)>, seen: Set<int>, p: int)
    requires
        engine_spec::starts(spans).contains(p),
        !seen.contains(p),
    ensures
        engine_spec::fresh(spans, seen).contains(first_at(spans, p)),
        first_at(spans, p).0 == p,
    decreases spans.len(),
{
    let init = spans.drop_last();
    let last = spans.last();
    let rest = engine_spec::fresh(init, seen);
    let all = engine_spec::fresh(spans, seen);
    assert(spans =~= init.push(last));
    lemma_first_at_push(init, last, p);
    let j = choose|j: int| 0 <= j < spans.len() && (#[trigger] spans[j]).0 == p;
    if engine_spec::starts(init).contains(p) {
        lemma_fresh_first(init, seen, p);
        let k = choose|k: int| 0 <= k < rest.len() && rest[k] == first_at(init, p);
        assert(all[k] == rest[k]);
    } else {
        if j < init.len() {
            assert(init[j].0 == p);
        }
        assert(all[all.len() - 1] == last);
    }
}

proof fn lemma_chained_has(
    src: SourceView,
    rule: Rule,
    site: SiteView,
    spans: Seq<(int, int)>,
    k: int,
)
    requires
        0 <= k < spans.len(),
        engine_spec::chain_holds(src, engine_spec::place(site, spans[k]), rule.chain@),
    ensures
        engine_spec::chained_hits(src, rule, site, spans).contains(
            engine_spec::hit_at(src, rule, site, spans[k]),
        ),
    decreases spans.len(),
{
    let init = spans.drop_last();
    let rest = engine_spec::chained_hits(src, rule, site, init);
    let all = engine_spec::chained_hits(src, rule, site, spans);
    if k < init.len() {
        assert(init[k] == spans[k]);
        lemma_chained_has(src, rule, site, init, k);
        let i = choose|i: int|
            0 <= i < rest.len() && rest[i] == engine_spec::hit_at(src, rule, site, spans[k]);
        assert(all[i] == rest[i]);
    } else {
        assert(all[all.len() - 1] == engine_spec::hit_at(src, rule, site, spans[k]));
    }
}

/// The scope that claims a position decides on it.
proof fn lemma_own_decided(
    src: SourceView,
    rule: Rule,
    site: SiteView,
    seen: Set<int>,
    p: int,
)
    requires
        finds(src, rule, site, p),
        !seen.contains(p),
    ensures
        decided_by(
            src,
            rule,
            engine_spec::chained_hits(
                src,
                rule,
                site,
                engine_spec::fresh(engine_spec::scope_candidates(src, rule, site), seen),
            ),
            site,
            p,
        ),
{
    let own = engine_spec::scope_candidates(src, rule, site);
    let spans = engine_spec::fresh(own, seen);
    let hits = engine_spec::chained_hits(src, rule, site, spans);
    let span = span_at(src, rule, site, p);
    lemma_fresh(own, seen);
    lemma_fresh_first(own, seen, p);
    let k = choose|k: int| 0 <= k < spans.len() && spans[k] == span;
    if engine_spec::chain_holds(src, engine_spec::place(site, span), rule.chain@) {
        lemma_chained_has(src, rule, site, spans, k);
    } else if hit_starts_at(hits, p) {
        let i = choose|i: int| 0 <= i < hits.len() && (#[trigger] hits[i]).start == p;
        let j = lemma_chained_hold(src, rule, site, spans, i);
        assert(spans[j].0 == p && spans[k].0 == p);
        assert(j == k) by {
            if j < k {
                assert(spans[j].0 != spans[k].0);
            } else if k < j {
                assert(spans[k].0 != spans[j].0);
            }
        }
    }
}

proof fn lemma_decided_concat(
    src: SourceView,
    rule: Rule,
    a: Seq<HitView>,
    b: Seq<HitView>,
    site: SiteView,
    p: int,
)
    requires
        (decided_by(src, rule, a, site, p) && !hit_starts_at(b, p)) || (decided_by(
            src,
            rule,
            b,
            site,
            p,
        ) && !hit_starts_at(a, p)),
    ensures
        decided_by(src, rule, a + b, site, p),
{
    let all = a + b;
    let hit = engine_spec::hit_at(src, rule, site, span_at(src, rule, site, p));
    if a.contains(hit) {
        let k = choose|k: int| 0 <= k < a.len() && a[k] == hit;
        assert(all[k] == hit);
    }
    if b.contains(hit) {
        let k = choose|k: int| 0 <= k < b.len() && b[k] == hit;
        assert(all[a.len() + k] == hit);
    }
    if hit_starts_at(all, p) {
        let k = choose|k: int| 0 <= k < all.len() && (#[trigger] all[k]).start == p;
        if k < a.len() {
            assert(a[k].start == p);
        } else {
            assert(b[k - a.len()].start == p);
        }
    }
}

proof fn lemma_tree_decided(
    src: SourceView,
    rule: Rule,
    node: ScopeView,
    ancestors: Seq<ScopeView>,
    path: Seq<Seq<char>>,
    seen: Set<int>,
    p: int,
)
    requires
        !seen.contains(p),
    ensures
        engine_spec::tree_hits(src, rule, node, ancestors, path, seen).1.contains(p) == (claimant(
            src,
            rule,
            node,
            ancestors,
            path,
            p,
        ) is Some),
        claimant(src, rule, node, ancestors, path, p) matches Some(site) ==> decided_by(
            src,
            rule,
            engine_spec::tree_hits(src, rule, node, ancestors, path, seen).0,
            site,
            p,
        ),
        claimant(src, rule, node, ancestors, path, p) is None ==> !hit_starts_at(
            engine_spec::tree_hits(src, rule, node, ancestors, path, seen).0,
            p,
        ),
    decreases node, 0int,
{
    let site = engine_spec::site_of(node, ancestors, path);
    let n = node.children.len() as int;
    let inner = engine_spec::forest_hits(
        src,
        rule,
        node.children,
        n,
        ancestors.push(node),
        site.path,
        seen,
    );
    let own = engine_spec::scope_candidates(src, rule, site);
    let hits = engine_spec::chained_hits(src, rule, site, engine_spec::fresh(own, inner.1));
    let all = engine_spec::tree_hits(src, rule, node, ancestors, path, seen);
    lemma_forest_decided(
        src,
        rule,
        node.children,
        n,
        ancestors.push(node),
        site.path,
        seen,
        p,
    );
    lemma_tree_claimed(src, rule, node, ancestors, path, seen);
    lemma_fresh(own, inner.1);
    lemma_chained_claimed(src, rule, site, engine_spec::fresh(own, inner.1), inner.1, all.1);
    let inside = forest_claimant(
        src,
        rule,
        node.children,
        n,
        ancestors.push(node),
        site.path,
        p,
    );
    if inside is Some {
        assert(!hit_starts_at(hits, p));
        lemma_decided_concat(src, rule, inner.0, hits, inside->0, p);
    } else if finds(src, rule, site, p) {
        lemma_own_decided(src, rule, site, inner.1, p);
        lemma_decided_concat(src, rule, inner.0, hits, site, p);
    } else {
        assert(!all.1.contains(p));
    }
}

proof fn lemma_forest_decided(
    src: SourceView,
    rule: Rule,
    nodes: Seq<ScopeView>,
    n: int,
    ancestors: Seq<ScopeView>,
    path: Seq<Seq<char>>,
    seen: Set<int>,
    p: int,
)
    requires
        !seen.contains(p),
    ensures
        engine_spec::forest_hits(src, rule, nodes, n, ancestors, path, seen).1.contains(p) == (
        forest_claimant(src, rule, nodes, n, ancestors, path, p) is Some),
        forest_claimant(src, rule, nodes, n, ancestors, path, p) matches Some(site) ==> decided_by(
            src,
            rule,
            engine_spec::forest_hits(src, rule, nodes, n, ancestors, path, seen).0,
            site,
            p,
        ),
        forest_claimant(src, rule, nodes, n, ancestors, path, p) is None ==> !hit_starts_at(
            engine_spec::forest_hits(src, rule, nodes, n, ancestors, path, seen).0,
            p,
        ),
    decreases nodes, n,
{
    if 0 < n <= nodes.len() {
        let before = engine_spec::forest_hits(src, rule, nodes, n - 1, ancestors, path, seen);
        let last = engine_spec::tree_hits(src, rule, nodes[n - 1], ancestors, path, before.1);
        let all = engine_spec::forest_hits(src, rule, nodes, n, ancestors, path, seen);
        lemma_forest_decided(src, rule, nodes, n - 1, ancestors, path, seen, p);
        lemma_tree_claimed(src, rule, nodes[n - 1], ancestors, path, before.1);
        lemma_forest_claimed(src, rule, nodes, n, ancestors, path, seen);
        let first = forest_claimant(src, rule, nodes, n - 1, ancestors, path, p);
        if first is Some {
            assert(!hit_starts_at(last.0, p));
            lemma_decided_concat(src, rule, before.0, last.0, first->0, p);
        } else {
            lemma_tree_decided(src, rule, nodes[n - 1], ancestors, path, before.1, p);
            let second = claimant(src, rule, nodes[n - 1], ancestors, path, p);
            if second is Some {
                lemma_decided_concat(src, rule, before.0, last.0, second->0, p);
            } else {
                assert(!all.1.contains(p));
            }
        }
    }
}

/// **Law.** A rule reports a position exactly when its trigger is found there in a scope that it
/// searches and its whole chain holds in the scope that claims the position; what it reports is the
/// match in that scope.
pub proof fn law_fires_where_claimed(src: SourceView, tree: ScopeView, rule: Rule, p: int)
    ensures
        claimant(src, rule, tree, seq![], seq![], p) is Some == tree_starts(
            src,
            rule,
            tree,
            seq![],
            seq![],
        ).contains(p),
        match claimant(src, rule, tree, seq![], seq![], p) {
            Some(site) => decided_by(src, rule, engine_spec::rule_hits(src, tree, rule), site, p),
            None => !hit_starts_at(engine_spec::rule_hits(src, tree, rule), p),
        },
{
    law_claims(src, rule, tree, seq![], seq![], Set::empty());
    lemma_tree_decided(src, rule, tree, seq![], seq![], Set::empty(), p);
}

/// `inner` is `outer`, or the site of a scope inside that of `outer`.
pub open spec fn is_within(inner: SiteView, outer: SiteView) -> bool {
    let n = outer.ancestors.len() as int;
    ||| inner == outer
    ||| n < inner.ancestors.len() && inner.ancestors.take(n) == outer.ancestors
        && inner.ancestors[n] == outer.node
}

/// The site belongs to a scope under one of `ancestors`.
spec fn extends(site: SiteView, ancestors: Seq<ScopeView>) -> bool {
    ancestors.len() <= site.ancestors.len() && site.ancestors.take(ancestors.len() as int)
        == ancestors
}

/// A scope of the tree starts and ends inside the tree, under the ancestors of the tree.
proof fn lemma_site_place(
    node: ScopeView,
    ancestors: Seq<ScopeView>,
    path: Seq<Seq<char>>,
    site: SiteView,
)
    requires
        site_in_tree(node, ancestors, path, site),
        starts_in_source(node),
    ensures
        extends(site, ancestors),
        site.node.body_start >= 0,
        scope_laws::well_nested(node) ==> node.body_start <= site.node.body_start
            && site.node.body_end <= node.body_end,
    decreases node,
{
    let own = engine_spec::site_of(node, ancestors, path);
    if site == own {
        assert(ancestors.take(ancestors.len() as int) =~= ancestors);
    } else {
        let i = choose|i: int|
            0 <= i < node.children.len() && site_in_tree(
                #[trigger] node.children[i],
                ancestors.push(node),
                own.path,
                site,
            );
        let under = ancestors.push(node);
        lemma_site_place(node.children[i], under, own.path, site);
        let n = ancestors.len() as int;
        assert(site.ancestors.take(n) =~= site.ancestors.take(n + 1).take(n));
        assert(under.take(n) =~= ancestors);
    }
}

/// A position is found between the bounds of the scope.
proof fn lemma_found_in_body(src: SourceView, rule: Rule, site: SiteView, p: int)
    requires
        ranges::disjoint_sorted(src.comments),
        pattern::finds_in_order(rule.matcher),
        site.node.body_start >= 0,
        finds(src, rule, site, p),
    ensures
        site.node.body_start <= p <= site.node.body_end,
{
    let own = engine_spec::scope_candidates(src, rule, site);
    let i = choose|i: int| 0 <= i < own.len() && (#[trigger] own[i]).0 == p;
    let body = scope_spec::body_of(site.node);
    let parts = engine_spec::target_ranges(src, rule.search_target, body);
    match rule.search_target {
        SearchTarget::All => {},
        SearchTarget::Comments => {
            ranges::lemma_clipped_within(src.comments, body);
        },
        SearchTarget::Code => {
            ranges::law_code_gaps_maximal(src.comments, src.strings, body);
        },
    }
    assert forall|k: int| #![trigger parts[k]] 0 <= k < parts.len() implies body.0 <= parts[k].0
        <= parts[k].1 <= body.1 by {}
    let k = lemma_candidate_part(src.bytes, rule.matcher, parts, i);
}

/// The claiming scope is one of the tree, and the position is found in it.
proof fn lemma_claimant_finds(
    src: SourceView,
    rule: Rule,
    node: ScopeView,
    ancestors: Seq<ScopeView>,
    path: Seq<Seq<char>>,
    p: int,
)
    requires
        claimant(src, rule, node, ancestors, path, p) is Some,
    ensures
        site_in_tree(node, ancestors, path, claimant(src, rule, node, ancestors, path, p)->0),
        finds(src, rule, claimant(src, rule, node, ancestors, path, p)->0, p),
    decreases node, 0int,
{
    let site = engine_spec::site_of(node, ancestors, path);
    let n = node.children.len() as int;
    let inner = forest_claimant(
        src,
        rule,
        node.children,
        n,
        ancestors.push(node),
        site.path,
        p,
    );
    if inner is Some {
        let k = lemma_forest_claimant_finds(
            src,
            rule,
            node.children,
            n,
            ancestors.push(node),
            site.path,
            p,
        );
        assert(site_in_tree(node.children[k], ancestors.push(node), site.path, inner->0));
        assert(site_in_tree(node, ancestors, path, inner->0));
    }
}

proof fn lemma_forest_claimant_finds(
    src: SourceView,
    rule: Rule,
    nodes: Seq<ScopeView>,
    n: int,
    ancestors: Seq<ScopeView>,
    path: Seq<Seq<char>>,
    p: int,
) -> (k: int)
    requires
        forest_claimant(src, rule, nodes, n, ancestors, path, p) is Some,
    ensures
        0 <= k < n <= nodes.len(),
        forest_claimant(src, rule, nodes, n, ancestors, path, p) == claimant(
            src,
            rule,
            nodes[k],
            ancestors,
            path,
            p,
        ),
        site_in_tree(
            nodes[k],
            ancestors,
            path,
            forest_claimant(src, rule, nodes, n, ancestors, path, p)->0,
        ),
        finds(src, rule, forest_claimant(src, rule, nodes, n, ancestors, path, p)->0, p),
    decreases nodes, n,
{
    if forest_claimant(src, rule, nodes, n - 1, ancestors, path, p) is Some {
        lemma_forest_claimant_finds(src, rule, nodes, n - 1, ancestors, path, p)
    } else {
        lemma_claimant_finds(src, rule, nodes[n - 1], ancestors, path, p);
        n - 1
    }
}

proof fn lemma_forest_claims_first(
    src: SourceView,
    rule: Rule,
    nodes: Seq<ScopeView>,
    n: int,
    ancestors: Seq<ScopeView>,
    path: Seq<Seq<char>>,
    p: int,
    i: int,
)
    requires
        0 <= i < n <= nodes.len(),
        claimant(src, rule, nodes[i], ancestors, path, p) is Some,
        forall|j: int|
            0 <= j < i ==> claimant(src, rule, #[trigger] nodes[j], ancestors, path, p) is None,
    ensures
        forest_claimant(src, rule, nodes, n, ancestors, path, p) == claimant(
            src,
            rule,
            nodes[i],
            ancestors,
            path,
            p,
        ),
    decreases n,
{
    if n - 1 > i {
        lemma_forest_claims_first(src, rule, nodes, n - 1, ancestors, path, p, i);
    } else {
        let before = forest_claimant(src, rule, nodes, n - 1, ancestors, path, p);
        if before is Some {
            let k = lemma_forest_claimant_finds(src, rule, nodes, n - 1, ancestors, path, p);
            assert(claimant(src, rule, nodes[k], ancestors, path, p) is None);
        }
    }
}

proof fn lemma_claimant_within(
    src: SourceView,
    rule: Rule,
    node: ScopeView,
    ancestors: Seq<ScopeView>,
    path: Seq<Seq<char>>,
    site: SiteView,
    p: int,
    lo: int,
    hi: int,
)
    requires
        ranges::disjoint_sorted(src.comments),
        pattern::finds_in_order(rule.matcher),
        starts_in_source(node),
        scope_laws::well_ordered(node.children, lo, hi),
        site_in_tree(node, ancestors, path, site),
        finds(src, rule, site, p),
    ensures
        claimant(src, rule, node, ancestors, path, p) is Some,
        is_within(claimant(src, rule, node, ancestors, path, p)->0, site),
    decreases node,
{
    let own = engine_spec::site_of(node, ancestors, path);
    let under = ancestors.push(node);
    let n = node.children.len() as int;
    let inner = forest_claimant(src, rule, node.children, n, under, own.path, p);
    if site == own {
        if inner is Some {
            let k = lemma_forest_claimant_finds(src, rule, node.children, n, under, own.path, p);
            lemma_site_place(node.children[k], under, own.path, inner->0);
            let len = ancestors.len() as int;
            let c = inner->0;
            assert(c.ancestors.take(len) =~= c.ancestors.take(len + 1).take(len));
            assert(under.take(len) =~= ancestors);
            assert(c.ancestors[len] == c.ancestors.take(len + 1)[len]);
        }
    } else {
        let i = choose|i: int|
            0 <= i < n && site_in_tree(#[trigger] node.children[i], under, own.path, site);
        let child = node.children[i];
        assert(scope_laws::well_nested(child));
        assert(scope_laws::well_ordered(child.children, child.body_start + 1, child.body_end));
        lemma_claimant_within(
            src,
            rule,
            child,
            under,
            own.path,
            site,
            p,
            child.body_start + 1,
            child.body_end,
        );
        lemma_site_place(child, under, own.path, site);
        lemma_found_in_body(src, rule, site, p);
        assert forall|j: int| 0 <= j < i implies claimant(
            src,
            rule,
            #[trigger] node.children[j],
            under,
            own.path,
            p,
        ) is None by {
            let other = node.children[j];
            if claimant(src, rule, other, under, own.path, p) is Some {
                lemma_claimant_finds(src, rule, other, under, own.path, p);
                let c = claimant(src, rule, other, under, own.path, p)->0;
                lemma_site_place(other, under, own.path, c);
                lemma_found_in_body(src, rule, c, p);
                assert(scope_laws::well_nested(other));
                assert(other.body_end < child.body_start);
            }
        }
        lemma_forest_claims_first(src, rule, node.children, n, under, own.path, p, i);
    }
}

/// No scope inside that of the site finds the trigger at `p`.
pub open spec fn is_innermost(
    src: SourceView,
    tree: ScopeView,
    rule: Rule,
    site: SiteView,
    p: int,
) -> bool {
    forall|inner: SiteView| #[trigger]
        site_in_tree(tree, seq![], seq![], inner) && is_within(inner, site) && finds(
            src,
            rule,
            inner,
            p,
        ) ==> inner == site
}

/// **Law.** The innermost scope decides: where the trigger is found at a position, the rule reports
/// it exactly when its whole chain holds in the innermost searched scope in which it is found, and
/// reports it for that scope.
pub proof fn law_innermost_decides(
    src: SourceView,
    tree: ScopeNode,
    rule: Rule,
    site: SiteView,
    p: int,
)
    requires
        ranges::disjoint_sorted(src.comments),
        pattern::finds_in_order(rule.matcher),
        scope_laws::well_ordered(tree@.children, 0, src.bytes.len() as int),
        site_in_tree(tree@, seq![], seq![], site),
        finds(src, rule, site, p),
        is_innermost(src, tree@, rule, site, p),
    ensures
        decided_by(src, rule, engine_spec::rule_hits(src, tree@, rule), site, p),
{
    lemma_starts_in_source(tree);
    lemma_claimant_within(
        src,
        rule,
        tree@,
        seq![],
        seq![],
        site,
        p,
        0,
        src.bytes.len() as int,
    );
    lemma_claimant_finds(src, rule, tree@, seq![], seq![], p);
    law_fires_where_claimed(src, tree@, rule, p);
}

// ---------------------------------------------------------------------------
// Chains and rules
// ---------------------------------------------------------------------------

/// **Law.** A chain without entries holds everywhere.
pub proof fn law_empty_chain(src: SourceView, at: PlaceView)
    ensures
        engine_spec::chain_holds(src, at, seq![]),
{
}

/// **Law.** All entries of a chain are required: two chains one after the other hold exactly where
/// both hold.
pub proof fn law_chain_conjunction(
    src: SourceView,
    at: PlaceView,
    a: Seq<ChainedPattern>,
    b: Seq<ChainedPattern>,
)
    ensures
        engine_spec::chain_holds(src, at, a + b) == (engine_spec::chain_holds(src, at, a)
            && engine_spec::chain_holds(src, at, b)),
{
    let all = a + b;
    if engine_spec::chain_holds(src, at, all) {
        assert forall|i: int| 0 <= i < a.len() implies engine_spec::entry_holds(
            src,
            at,
            #[trigger] a[i],
        ) by {
            assert(all[i] == a[i]);
        }
        assert forall|i: int| 0 <= i < b.len() implies engine_spec::entry_holds(
            src,
            at,
            #[trigger] b[i],
        ) by {
            assert(all[a.len() + i] == b[i]);
        }
    }
}

/// **Law.** Negating a chain entry inverts it, also where there are no bytes to search.  Only where
/// the class or namespace that the entry asks for is missing does neither form hold.
pub proof fn law_negated_entry(
    src: SourceView,
    at: PlaceView,
    entry: ChainedPattern,
    negated: ChainedPattern,
)
    requires
        negated == (ChainedPattern { negate: !entry.negate, ..entry }),
    ensures
        engine_spec::chain_scope(src, at, entry.relationship) is Some ==> engine_spec::entry_holds(
            src,
            at,
            negated,
        ) == !engine_spec::entry_holds(src, at, entry),
        engine_spec::chain_scope(src, at, entry.relationship) is None ==> !engine_spec::entry_holds(
            src,
            at,
            negated,
        ) && !engine_spec::entry_holds(src, at, entry),
{
}

/// **Law.** Only the searches of a class or a namespace can miss their scope.
pub proof fn law_missing_scope(src: SourceView, at: PlaceView, rel: ChainRelationship)
    ensures
        engine_spec::chain_scope(src, at, rel) is None ==> rel
            == ChainRelationship::AnywhereInClass || rel == ChainRelationship::AnywhereInNamespace,
{
}

/// **Law.** Rules do not affect each other: the matches of two lists of rules, one after the
/// other, are the matches of the first and then those of the second.
pub proof fn law_rules_independent(
    src: SourceView,
    file: Seq<char>,
    tree: ScopeView,
    a: Seq<Rule>,
    b: Seq<Rule>,
)
    ensures
        engine_spec::scan_matches(src, file, tree, a + b) == engine_spec::scan_matches(
            src,
            file,
            tree,
            a,
        ) + engine_spec::scan_matches(src, file, tree, b),
    decreases b.len(),
{
    let hits = |rule: Rule| engine_spec::rule_hits(src, tree, rule);
    if b.len() == 0 {
        assert(a + b =~= a);
        assert(engine_spec::scan_matches(src, file, tree, a) + engine_spec::scan_matches(
            src,
            file,
            tree,
            b,
        ) =~= engine_spec::scan_matches(src, file, tree, a));
    } else {
        let init = b.drop_last();
        law_rules_independent(src, file, tree, a, init);
        assert((a + b).drop_last() =~= a + init);
        assert((a + b).map_values(hits).drop_last() =~= (a + init).map_values(hits));
        assert(b.map_values(hits).drop_last() =~= init.map_values(hits));
        assert((a + b).map_values(hits).last() == b.map_values(hits).last());
        assert(engine_spec::scan_matches(src, file, tree, a + b) =~= engine_spec::scan_matches(
            src,
            file,
            tree,
            a,
        ) + engine_spec::scan_matches(src, file, tree, b));
    }
}

} // verus!
