//! Laws of what a scan reports: the fields of a match, where they come from, and the order of the
//! matches.

use crate::chain_laws;
use crate::engine::MatchContext;
use crate::engine_laws;
use crate::engine_spec;
use crate::engine_spec::{HitView, MatchView, PlaceView, SiteView, SourceView};
use crate::lines;
use crate::lines_laws;
use crate::pattern;
use crate::ranges;
use crate::rules;
use crate::rules::{Rule, SearchTarget};
use crate::scope::ScopeKind;
use crate::scope_spec::ScopeView;
use grep::regex::RegexMatcher;
use vstd::prelude::*;

verus! {

// ---------------------------------------------------------------------------
// Matches
// ---------------------------------------------------------------------------

/// The match reports the hit: it names the rule with its message and severity, the file, the line and
/// column of the hit, its scope path and its context, and the text it covers; there is no verdict on it
/// yet, and the snippet to judge it by is the one shown.
pub open spec fn reports(
    m: MatchView,
    bytes: Seq<u8>,
    file: Seq<char>,
    rule: Rule,
    hit: HitView,
) -> bool {
    let start = hit.start - m.column + 1;
    &&& m.rule_name == rule.name@
    &&& m.message == rule.message@
    &&& m.severity == rule.severity
    &&& m.file == file
    &&& m.scope_path == hit.scope_path
    &&& m.context == hit.context
    &&& m.matched_text == vstd::utf8::decode_utf8(bytes.subrange(hit.start, hit.end))
    &&& m.snippet == lines::snippet_of(bytes, hit.start, hit.end)
    &&& m.ai_snippet == m.snippet
    &&& m.ai_verdict is None
    &&& m.line == lines_laws::newlines_in(bytes, 0, hit.start) + 1
    &&& 0 <= start <= hit.start
    &&& start == 0 || bytes[start - 1] == 10u8
    &&& forall|q: int| start <= q < hit.start ==> bytes[q] != 10u8
}

/// **Law.** The report of a hit carries the fields of the rule and of the hit.
pub proof fn law_match_reports_hit(bytes: Seq<u8>, file: Seq<char>, rule: Rule, hit: HitView)
    requires
        0 <= hit.start <= bytes.len(),
    ensures
        reports(engine_spec::match_of(bytes, file, rule, hit), bytes, file, rule, hit),
{
    lines_laws::lemma_line(bytes, hit.start);
    lines::lemma_line_start(bytes, hit.start);
}

/// Number of hits of the first `n` rules.
pub open spec fn hits_before(hits: Seq<Seq<HitView>>, n: int) -> int
    decreases n,
{
    if n <= 0 {
        0
    } else {
        hits_before(hits, n - 1) + hits[n - 1].len()
    }
}

proof fn lemma_hits_before(hits: Seq<Seq<HitView>>, more: Seq<Seq<HitView>>, n: int)
    requires
        0 <= n <= hits.len() <= more.len(),
        forall|i: int| 0 <= i < hits.len() ==> #[trigger] hits[i] == more[i],
    ensures
        hits_before(hits, n) == hits_before(more, n),
        hits_before(hits, n) >= 0,
    decreases n,
{
    if n > 0 {
        lemma_hits_before(hits, more, n - 1);
    }
}

proof fn lemma_hits_grow(hits: Seq<Seq<HitView>>, m: int, n: int)
    requires
        0 <= m <= n <= hits.len(),
    ensures
        0 <= hits_before(hits, m) <= hits_before(hits, n),
    decreases n,
{
    lemma_hits_before(hits, hits, m);
    if m < n {
        lemma_hits_grow(hits, m, n - 1);
    }
}

/// **Law.** Every hit is reported, once and in its place: rule by rule, and the hits of a rule in their
/// order.  There are as many matches as hits.
pub proof fn law_every_hit_reported(
    bytes: Seq<u8>,
    file: Seq<char>,
    rules: Seq<Rule>,
    hits: Seq<Seq<HitView>>,
    i: int,
    j: int,
)
    requires
        hits.len() == rules.len(),
        0 <= i < rules.len(),
        0 <= j < hits[i].len(),
        0 <= hits[i][j].start <= bytes.len(),
    ensures
        0 <= hits_before(hits, i) + j < engine_spec::reported(bytes, file, rules, hits).len(),
        reports(
            engine_spec::reported(bytes, file, rules, hits)[hits_before(hits, i) + j],
            bytes,
            file,
            rules[i],
            hits[i][j],
        ),
        engine_spec::reported(bytes, file, rules, hits).len() == hits_before(
            hits,
            hits.len() as int,
        ),
    decreases rules.len(),
{
    let n = rules.len() - 1;
    let before = engine_spec::reported(bytes, file, rules.drop_last(), hits.drop_last());
    lemma_reported_len(bytes, file, rules, hits);
    lemma_reported_len(bytes, file, rules.drop_last(), hits.drop_last());
    lemma_hits_before(hits.drop_last(), hits, n);
    lemma_hits_before(hits, hits, i);
    if i < n {
        law_every_hit_reported(bytes, file, rules.drop_last(), hits.drop_last(), i, j);
        lemma_hits_before(hits.drop_last(), hits, i);
        lemma_hits_grow(hits, i + 1, n);
        assert(engine_spec::reported(bytes, file, rules, hits)[hits_before(hits, i) + j]
            == before[hits_before(hits, i) + j]);
    } else {
        law_match_reports_hit(bytes, file, rules[i], hits[i][j]);
    }
}

proof fn lemma_reported_len(
    bytes: Seq<u8>,
    file: Seq<char>,
    rules: Seq<Rule>,
    hits: Seq<Seq<HitView>>,
)
    requires
        hits.len() == rules.len(),
    ensures
        engine_spec::reported(bytes, file, rules, hits).len() == hits_before(
            hits,
            hits.len() as int,
        ),
    decreases rules.len(),
{
    if rules.len() > 0 {
        lemma_reported_len(bytes, file, rules.drop_last(), hits.drop_last());
        lemma_hits_before(hits.drop_last(), hits, hits.len() - 1);
    }
}

/// **Law.** Every match that a scan reports comes from one of the rules and carries its name, its message
/// and its severity, together with the name of the file and the place of one of the hits of that rule.
pub proof fn law_match_from_rule(
    src: SourceView,
    file: Seq<char>,
    tree: ScopeView,
    rules: Seq<Rule>,
    k: int,
) -> (ij: (int, int))
    requires
        0 <= k < engine_spec::scan_matches(src, file, tree, rules).len(),
    ensures
        ({
            let m = engine_spec::scan_matches(src, file, tree, rules)[k];
            let hits = engine_spec::rule_hits(src, tree, rules[ij.0]);
            &&& 0 <= ij.0 < rules.len()
            &&& 0 <= ij.1 < hits.len()
            &&& m.rule_name == rules[ij.0].name@
            &&& m.message == rules[ij.0].message@
            &&& m.severity == rules[ij.0].severity
            &&& m.file == file
            &&& m.scope_path == hits[ij.1].scope_path
            &&& m.context == hits[ij.1].context
            &&& 0 <= hits[ij.1].start <= src.bytes.len() ==> reports(
                m,
                src.bytes,
                file,
                rules[ij.0],
                hits[ij.1],
            )
        }),
    decreases rules.len(),
{
    let all = rules.map_values(|rule: Rule| engine_spec::rule_hits(src, tree, rule));
    let rest = rules.drop_last();
    let before = engine_spec::scan_matches(src, file, tree, rest);
    assert(all.drop_last() =~= rest.map_values(
        |rule: Rule| engine_spec::rule_hits(src, tree, rule),
    ));
    if k < before.len() {
        law_match_from_rule(src, file, tree, rest, k)
    } else {
        let j = k - before.len();
        let hit = engine_spec::rule_hits(src, tree, rules.last())[j];
        if 0 <= hit.start <= src.bytes.len() {
            law_match_reports_hit(src.bytes, file, rules.last(), hit);
        }
        (rules.len() - 1, j)
    }
}

// ---------------------------------------------------------------------------
// Contexts and targets
// ---------------------------------------------------------------------------

/// One of the ranges holds position `p`.
pub open spec fn is_in(ranges: Seq<(int, int)>, p: int) -> bool {
    exists|i: int| 0 <= i < ranges.len() && (#[trigger] ranges[i]).0 <= p < ranges[i].1
}

/// **Law.** A match found in any text has the context of the place where it starts: a comment, or else a
/// string, or else code.  A match of a rule that searches comments alone has the context of a comment, and
/// one of a rule that searches code alone that of code.
pub proof fn law_context(src: SourceView, rule: Rule, site: SiteView, span: (int, int))
    ensures
        ({
            let hit = engine_spec::hit_at(src, rule, site, span);
            &&& hit.start == span.0
            &&& hit.end == span.1
            &&& hit.scope_path == site.path
            &&& rule.search_target == SearchTarget::Comments ==> hit.context
                == MatchContext::Comment
            &&& rule.search_target == SearchTarget::Code ==> hit.context == MatchContext::Code
            &&& rule.search_target == SearchTarget::All && is_in(src.comments, span.0)
                ==> hit.context == MatchContext::Comment
            &&& rule.search_target == SearchTarget::All && !is_in(src.comments, span.0) && is_in(
                src.strings,
                span.0,
            ) ==> hit.context == MatchContext::StringLiteral
            &&& rule.search_target == SearchTarget::All && !is_in(src.comments, span.0) && !is_in(
                src.strings,
                span.0,
            ) ==> hit.context == MatchContext::Code
        }),
{
}

/// **Law.** A rule with a filter searches the scopes whose path the filter accepts, and one without a
/// filter every scope but the file and anonymous blocks; in both cases only scopes whose contents lie in
/// the source.
pub proof fn law_searched_scopes(src: SourceView, rule: Rule, site: SiteView)
    ensures
        ({
            let from = if site.node.kind == ScopeKind::File {
                site.node.body_start
            } else {
                site.node.body_start + 1
            };
            let inside = from <= site.node.body_end && site.node.body_end <= src.bytes.len();
            engine_spec::is_searched(src, rule, site) == (inside && match rule.scope_filter {
                Some(filter) => rules::filter_matches(filter@, site.path),
                None => site.node.kind == ScopeKind::Namespace || site.node.kind
                    == ScopeKind::Class || site.node.kind == ScopeKind::Struct || site.node.kind
                    == ScopeKind::Enum || site.node.kind == ScopeKind::Union || site.node.kind
                    == ScopeKind::Interface || site.node.kind == ScopeKind::Function,
            })
        }),
        !engine_spec::is_searched(src, rule, site) ==> engine_spec::scope_candidates(
            src,
            rule,
            site,
        ).len() == 0,
{
}

// ---------------------------------------------------------------------------
// Candidates
// ---------------------------------------------------------------------------

/// The pattern has a match in the part that stands at the span.
pub open spec fn found_in(
    bytes: Seq<u8>,
    matcher: RegexMatcher,
    part: (int, int),
    k: int,
    span: (int, int),
) -> bool {
    let found = pattern::matched_spans(matcher, bytes.subrange(part.0, part.1));
    0 <= k < found.len() && span.0 == part.0 + found[k].0 && span.1 == part.0 + found[k].1
}

/// **Law.** The spans at which a trigger is found are its matches in the parts that are searched, each
/// part on its own, told as positions in the source.
pub proof fn law_candidates_sound(
    bytes: Seq<u8>,
    matcher: RegexMatcher,
    parts: Seq<(int, int)>,
    i: int,
) -> (jk: (int, int))
    requires
        0 <= i < engine_spec::candidates(bytes, matcher, parts).len(),
    ensures
        0 <= jk.0 < parts.len(),
        found_in(
            bytes,
            matcher,
            parts[jk.0],
            jk.1,
            engine_spec::candidates(bytes, matcher, parts)[i],
        ),
    decreases parts.len(),
{
    let before = engine_spec::candidates(bytes, matcher, parts.drop_last());
    if i < before.len() {
        law_candidates_sound(bytes, matcher, parts.drop_last(), i)
    } else {
        (parts.len() - 1, i - before.len())
    }
}

/// **Law.** No match of the trigger in a part that is searched is left out.
pub proof fn law_candidates_complete(
    bytes: Seq<u8>,
    matcher: RegexMatcher,
    parts: Seq<(int, int)>,
    j: int,
    k: int,
) -> (i: int)
    requires
        0 <= j < parts.len(),
        0 <= k < pattern::matched_spans(matcher, bytes.subrange(parts[j].0, parts[j].1)).len(),
    ensures
        0 <= i < engine_spec::candidates(bytes, matcher, parts).len(),
        found_in(
            bytes,
            matcher,
            parts[j],
            k,
            engine_spec::candidates(bytes, matcher, parts)[i],
        ),
    decreases parts.len(),
{
    let before = engine_spec::candidates(bytes, matcher, parts.drop_last());
    if j < parts.len() - 1 {
        law_candidates_complete(bytes, matcher, parts.drop_last(), j, k)
    } else {
        before.len() + k
    }
}

/// **Law.** The parts are searched one after the other: what is found in some parts and then in others
/// comes in this order, and what is found in one part in the order in which the pattern finds it.
pub proof fn law_candidates_in_order(
    bytes: Seq<u8>,
    matcher: RegexMatcher,
    a: Seq<(int, int)>,
    b: Seq<(int, int)>,
    part: (int, int),
)
    ensures
        engine_spec::candidates(bytes, matcher, a + b) == engine_spec::candidates(bytes, matcher, a)
            + engine_spec::candidates(bytes, matcher, b),
        ({
            let found = pattern::matched_spans(matcher, bytes.subrange(part.0, part.1));
            let one = engine_spec::candidates(bytes, matcher, seq![part]);
            one.len() == found.len() && forall|k: int|
                0 <= k < found.len() ==> #[trigger] one[k] == (
                    part.0 + found[k].0,
                    part.0 + found[k].1,
                )
        }),
    decreases b.len(),
{
    reveal_with_fuel(engine_spec::candidates, 2);
    assert(seq![part].drop_last() =~= seq![]);
    let first = engine_spec::candidates(bytes, matcher, a);
    if b.len() == 0 {
        assert(a + b =~= a);
        assert(first + engine_spec::candidates(bytes, matcher, b) =~= first);
    } else {
        law_candidates_in_order(bytes, matcher, a, b.drop_last(), part);
        assert((a + b).drop_last() =~= a + b.drop_last());
        assert((a + b).last() == b.last());
        assert(engine_spec::candidates(bytes, matcher, a + b) =~= first
            + engine_spec::candidates(bytes, matcher, b));
    }
}

/// **Law.** The hits in a scope come behind those in the scopes inside it, and each of them carries the
/// path of the scope.
pub proof fn law_inner_scopes_first(
    src: SourceView,
    rule: Rule,
    node: ScopeView,
    ancestors: Seq<ScopeView>,
    path: Seq<Seq<char>>,
    seen: Set<int>,
) -> (n: int)
    ensures
        ({
            let own = if node.name.len() > 0 {
                path.push(node.name)
            } else {
                path
            };
            let all = engine_spec::tree_hits(src, rule, node, ancestors, path, seen).0;
            &&& 0 <= n <= all.len()
            &&& all.take(n) == engine_spec::forest_hits(
                src,
                rule,
                node.children,
                node.children.len() as int,
                ancestors.push(node),
                own,
                seen,
            ).0
            &&& forall|i: int| n <= i < all.len() ==> (#[trigger] all[i]).scope_path == own
        }),
{
    let site = engine_spec::site_of(node, ancestors, path);
    let inner = engine_spec::forest_hits(
        src,
        rule,
        node.children,
        node.children.len() as int,
        ancestors.push(node),
        site.path,
        seen,
    );
    let own = engine_spec::scope_candidates(src, rule, site);
    let last = engine_spec::chained_hits(src, rule, site, engine_spec::fresh(own, inner.1));
    let all = engine_spec::tree_hits(src, rule, node, ancestors, path, seen).0;
    lemma_chained_path(src, rule, site, engine_spec::fresh(own, inner.1));
    assert(all =~= inner.0 + last);
    assert(all.take(inner.0.len() as int) =~= inner.0);
    assert forall|i: int| inner.0.len() <= i < all.len() implies (#[trigger] all[i]).scope_path
        == site.path by {
        assert(all[i] == last[i - inner.0.len()]);
    }
    inner.0.len() as int
}

proof fn lemma_chained_path(
    src: SourceView,
    rule: Rule,
    site: SiteView,
    spans: Seq<(int, int)>,
)
    ensures
        forall|i: int|
            0 <= i < engine_spec::chained_hits(src, rule, site, spans).len() ==> (
            #[trigger] engine_spec::chained_hits(src, rule, site, spans)[i]).scope_path
                == site.path,
    decreases spans.len(),
{
    if spans.len() > 0 {
        lemma_chained_path(src, rule, site, spans.drop_last());
    }
}

/// **Law.** Scopes side by side are searched in their order: the hits in a scope come behind those in the
/// scopes before it.
pub proof fn law_scopes_in_order(
    src: SourceView,
    rule: Rule,
    nodes: Seq<ScopeView>,
    k: int,
    ancestors: Seq<ScopeView>,
    path: Seq<Seq<char>>,
    seen: Set<int>,
)
    requires
        0 <= k < nodes.len(),
    ensures
        ({
            let before = engine_spec::forest_hits(src, rule, nodes, k, ancestors, path, seen);
            let after = engine_spec::forest_hits(src, rule, nodes, k + 1, ancestors, path, seen);
            before.0.is_prefix_of(after.0) && after.0.skip(before.0.len() as int)
                == engine_spec::tree_hits(src, rule, nodes[k], ancestors, path, before.1).0
        }),
{
    let before = engine_spec::forest_hits(src, rule, nodes, k, ancestors, path, seen);
    let after = engine_spec::forest_hits(src, rule, nodes, k + 1, ancestors, path, seen);
    let last = engine_spec::tree_hits(src, rule, nodes[k], ancestors, path, before.1);
    assert(after.0.skip(before.0.len() as int) =~= last.0);
    assert(before.0.is_prefix_of(after.0));
}

// ---------------------------------------------------------------------------
// Scope paths
// ---------------------------------------------------------------------------

/// The names of those of the scopes that have one, in order.
pub open spec fn names(line: Seq<ScopeView>) -> Seq<Seq<char>>
    decreases line.len(),
{
    if line.len() == 0 {
        seq![]
    } else if line.last().name.len() == 0 {
        names(line.drop_last())
    } else {
        names(line.drop_last()).push(line.last().name)
    }
}

/// The scope stands directly in the other one.
pub open spec fn is_child(parent: ScopeView, node: ScopeView) -> bool {
    exists|c: int| 0 <= c < parent.children.len() && #[trigger] parent.children[c] == node
}

/// Each scope stands directly in the one before it.
pub open spec fn descends(line: Seq<ScopeView>) -> bool {
    forall|i: int| 0 < i < line.len() ==> is_child(line[i - 1], #[trigger] line[i])
}

/// The scopes lead from the root down to one of the scopes of its tree.
pub open spec fn leads_down(root: ScopeView, line: Seq<ScopeView>) -> bool {
    line.len() > 0 && line[0] == root && descends(line)
}

/// The site at the end of a line of scopes: its path holds the names of all of them.
pub open spec fn site_at(line: Seq<ScopeView>) -> SiteView {
    SiteView { node: line.last(), ancestors: line.drop_last(), path: names(line) }
}

proof fn lemma_site_line(
    root: ScopeView,
    node: ScopeView,
    ancestors: Seq<ScopeView>,
    path: Seq<Seq<char>>,
    site: SiteView,
)
    requires
        leads_down(root, ancestors.push(node)),
        path == names(ancestors),
        engine_laws::site_in_tree(node, ancestors, path, site),
    ensures
        leads_down(root, site.ancestors.push(site.node)),
        site == site_at(site.ancestors.push(site.node)),
    decreases node,
{
    let own = engine_spec::site_of(node, ancestors, path);
    let line = ancestors.push(node);
    assert(line.drop_last() =~= ancestors);
    assert(own.path == names(line));
    if site != own {
        let c = choose|c: int|
            0 <= c < node.children.len() && engine_laws::site_in_tree(
                #[trigger] node.children[c],
                ancestors.push(node),
                own.path,
                site,
            );
        let child = node.children[c];
        let longer = line.push(child);
        assert forall|i: int| 0 < i < longer.len() implies is_child(
            longer[i - 1],
            #[trigger] longer[i],
        ) by {
            if i < line.len() {
                assert(longer[i] == line[i]);
            } else {
                assert(node.children[c] == child);
            }
        }
        lemma_site_line(root, child, line, own.path, site);
    }
}

proof fn lemma_line_site(
    node: ScopeView,
    ancestors: Seq<ScopeView>,
    path: Seq<Seq<char>>,
    line: Seq<ScopeView>,
)
    requires
        leads_down(node, line),
        path == names(ancestors),
    ensures
        engine_laws::site_in_tree(node, ancestors, path, site_at(ancestors + line)),
    decreases line.len(),
{
    let own = engine_spec::site_of(node, ancestors, path);
    let deeper = ancestors.push(node);
    assert(deeper.drop_last() =~= ancestors);
    assert(own.path == names(deeper));
    if line.len() == 1 {
        assert(ancestors + line =~= deeper);
        assert(site_at(ancestors + line) == own);
    } else {
        let rest = line.skip(1);
        assert(is_child(line[0], line[1]));
        let c = choose|c: int|
            0 <= c < node.children.len() && #[trigger] node.children[c] == line[1];
        assert forall|i: int| 0 < i < rest.len() implies is_child(rest[i - 1], #[trigger] rest[i]) by {
            assert(rest[i] == line[i + 1]);
        }
        lemma_line_site(node.children[c], deeper, own.path, rest);
        assert(deeper + rest =~= ancestors + line);
    }
}

/// **Law.** The sites of a tree are the ends of the lines of scopes that lead down from its root.  The
/// path of a site holds the names of the scopes on the line, outermost first; a scope without a name adds
/// nothing to it.
pub proof fn law_scope_path(tree: ScopeView, site: SiteView)
    ensures
        engine_laws::site_in_tree(tree, seq![], seq![], site) == (site == site_at(
            site.ancestors.push(site.node),
        ) && leads_down(tree, site.ancestors.push(site.node))),
{
    let line = site.ancestors.push(site.node);
    if engine_laws::site_in_tree(tree, seq![], seq![], site) {
        lemma_site_line(tree, tree, seq![], seq![], site);
    }
    if site == site_at(line) && leads_down(tree, line) {
        lemma_line_site(tree, seq![], seq![], line);
        assert(Seq::<ScopeView>::empty() + line =~= line);
    }
}

/// **Law.** Every hit of a rule stands at the end of a line of scopes from the root: its path holds
/// their names, the rule searches the last of them and finds its trigger there, and the chain holds at that
/// place.
pub proof fn law_hit_in_scope(src: SourceView, tree: ScopeView, rule: Rule, i: int) -> (line: Seq<
    ScopeView,
>)
    requires
        0 <= i < engine_spec::rule_hits(src, tree, rule).len(),
    ensures
        ({
            let hit = engine_spec::rule_hits(src, tree, rule)[i];
            let body = chain_laws::inside(line.last());
            &&& leads_down(tree, line)
            &&& hit.scope_path == names(line)
            &&& engine_spec::is_searched(src, rule, site_at(line))
            &&& engine_spec::candidates(
                src.bytes,
                rule.matcher,
                engine_spec::target_ranges(src, rule.search_target, body),
            ).contains((hit.start, hit.end))
            &&& engine_spec::chain_holds(
                src,
                (PlaceView {
                    from: hit.start,
                    to: hit.end,
                    body,
                    node: line.last(),
                    ancestors: line.drop_last(),
                }),
                rule.chain@,
            )
        }),
{
    let hit = engine_spec::rule_hits(src, tree, rule)[i];
    engine_laws::law_hits_justified(src, tree, rule, i);
    let site = choose|site: SiteView| #[trigger]
        engine_laws::site_in_tree(tree, seq![], seq![], site) && engine_laws::is_justified(
            src,
            rule,
            site,
            hit,
        );
    let line = site.ancestors.push(site.node);
    law_scope_path(tree, site);
    assert(line.drop_last() =~= site.ancestors);
    line
}

// ---------------------------------------------------------------------------
// Parts
// ---------------------------------------------------------------------------

/// The part of the body that a comment covers.
pub open spec fn covered_part(comment: (int, int), body: (int, int), part: (int, int)) -> bool {
    &&& comment.0 < body.1
    &&& comment.1 > body.0
    &&& part.0 == (if comment.0 >= body.0 {
        comment.0
    } else {
        body.0
    })
    &&& part.1 == (if comment.1 <= body.1 {
        comment.1
    } else {
        body.1
    })
}

/// **Law.** A rule that searches everything searches the body as one part.
pub proof fn law_part_of_all(src: SourceView, body: (int, int))
    ensures
        engine_spec::target_ranges(src, SearchTarget::All, body).len() == 1,
        engine_spec::target_ranges(src, SearchTarget::All, body)[0] == body,
{
}

/// **Law.** A rule that searches comments searches, as a part of its own, what each comment covers of
/// the body: every part comes from a comment.
pub proof fn law_comment_part(src: SourceView, body: (int, int), i: int) -> (c: int)
    requires
        0 <= i < engine_spec::target_ranges(src, SearchTarget::Comments, body).len(),
    ensures
        0 <= c < src.comments.len(),
        covered_part(
            src.comments[c],
            body,
            engine_spec::target_ranges(src, SearchTarget::Comments, body)[i],
        ),
{
    lemma_comment_part(src.comments, body, i)
}

proof fn lemma_comment_part(comments: Seq<(int, int)>, body: (int, int), i: int) -> (c: int)
    requires
        0 <= i < ranges::clipped(comments, body).len(),
    ensures
        0 <= c < comments.len(),
        covered_part(comments[c], body, ranges::clipped(comments, body)[i]),
    decreases comments.len(),
{
    if i < ranges::clipped(comments.drop_last(), body).len() {
        lemma_comment_part(comments.drop_last(), body, i)
    } else {
        comments.len() - 1
    }
}

/// **Law.** No comment that reaches into the body is left out.
pub proof fn law_comment_parts_complete(
    src: SourceView,
    body: (int, int),
    c: int,
    part: (int, int),
)
    requires
        0 <= c < src.comments.len(),
        covered_part(src.comments[c], body, part),
    ensures
        engine_spec::target_ranges(src, SearchTarget::Comments, body).contains(part),
{
    lemma_comment_parts_complete(src.comments, body, c, part);
}

proof fn lemma_comment_parts_complete(
    comments: Seq<(int, int)>,
    body: (int, int),
    c: int,
    part: (int, int),
)
    requires
        0 <= c < comments.len(),
        covered_part(comments[c], body, part),
    ensures
        ranges::clipped(comments, body).contains(part),
    decreases comments.len(),
{
    let rest = ranges::clipped(comments.drop_last(), body);
    let all = ranges::clipped(comments, body);
    if c < comments.len() - 1 {
        lemma_comment_parts_complete(comments.drop_last(), body, c, part);
        let i = choose|i: int| 0 <= i < rest.len() && rest[i] == part;
        assert(all[i] == part);
    } else {
        assert(all[rest.len() as int] == part);
    }
}

/// **Law.** The comments are searched in their order.
pub proof fn law_comment_parts_in_order(
    a: Seq<(int, int)>,
    b: Seq<(int, int)>,
    bytes: Seq<u8>,
    strings: Seq<(int, int)>,
    body: (int, int),
)
    ensures
        ({
            let parts = |comments: Seq<(int, int)>|
                engine_spec::target_ranges(
                    (SourceView { bytes, comments, strings }),
                    SearchTarget::Comments,
                    body,
                );
            parts(a + b) == parts(a) + parts(b)
        }),
    decreases b.len(),
{
    if b.len() == 0 {
        assert(a + b =~= a);
        assert(ranges::clipped(a, body) + ranges::clipped(b, body) =~= ranges::clipped(a, body));
    } else {
        law_comment_parts_in_order(a, b.drop_last(), bytes, strings, body);
        assert((a + b).drop_last() =~= a + b.drop_last());
        assert((a + b).last() == b.last());
        assert(ranges::clipped(a + b, body) =~= ranges::clipped(a, body) + ranges::clipped(
            b,
            body,
        ));
    }
}

/// **Law.** A rule that searches code searches exactly the bytes of the body that lie in no comment and
/// no string, and each run of them as one part.
pub proof fn law_code_parts(src: SourceView, body: (int, int), q: int)
    requires
        body.0 <= q < body.1,
    ensures
        ({
            let parts = engine_spec::target_ranges(src, SearchTarget::Code, body);
            &&& is_in(parts, q) == (!is_in(src.comments, q) && !is_in(src.strings, q))
            &&& forall|i: int|
                0 <= i < parts.len() ==> body.0 <= (#[trigger] parts[i]).0 < parts[i].1 <= body.1
            &&& forall|i: int, j: int|
                0 <= i < j < parts.len() ==> (#[trigger] parts[i]).1 < (#[trigger] parts[j]).0
        }),
{
    ranges::law_code_gaps_complement(src.comments, src.strings, body, q);
    ranges::law_code_gaps_maximal(src.comments, src.strings, body);
}

} // verus!
