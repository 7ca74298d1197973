//! What a scan reports, stated over the bytes of the source, the scope tree and the rules.

use crate::engine::MatchContext;
use crate::lex_spec;
use crate::lines;
use crate::pattern;
use crate::ranges;
use crate::rules;
use crate::rules::{ChainRelationship, ChainedPattern, Rule, SearchTarget, Severity};
use crate::scope::ScopeKind;
use crate::scope_spec;
use crate::scope_spec::ScopeView;
use grep::regex::RegexMatcher;
use vstd::prelude::*;

verus! {

/// A source text with its comment and string ranges.
pub struct SourceView {
    pub bytes: Seq<u8>,
    pub comments: Seq<(int, int)>,
    pub strings: Seq<(int, int)>,
}

/// Mathematical counterpart of [`crate::engine::Hit`].
pub struct HitView {
    pub start: int,
    pub end: int,
    pub context: MatchContext,
    pub scope_path: Seq<Seq<char>>,
}

/// Mathematical counterpart of [`crate::engine::AiVerdict`].
pub struct VerdictView {
    pub is_false_positive: bool,
    pub reasoning: Seq<char>,
}

/// Mathematical counterpart of [`crate::engine::ScanMatch`].
pub struct MatchView {
    pub rule_name: Seq<char>,
    pub file: Seq<char>,
    pub line: int,
    pub column: int,
    pub scope_path: Seq<Seq<char>>,
    pub matched_text: Seq<char>,
    pub snippet: Seq<char>,
    pub ai_snippet: Seq<char>,
    pub message: Seq<char>,
    pub severity: Severity,
    pub context: MatchContext,
    pub ai_verdict: Option<VerdictView>,
}

// ---------------------------------------------------------------------------
// Candidates
// ---------------------------------------------------------------------------

/// What position `p` is part of.  A comment comes before a string.
pub open spec fn context_at(
    comments: Seq<(int, int)>,
    strings: Seq<(int, int)>,
    p: int,
) -> MatchContext {
    if ranges::covers(comments, p) {
        MatchContext::Comment
    } else if ranges::covers(strings, p) {
        MatchContext::StringLiteral
    } else {
        MatchContext::Code
    }
}

/// The parts of `body` that a rule searches.
pub open spec fn target_ranges(src: SourceView, target: SearchTarget, body: (int, int)) -> Seq<
    (int, int),
> {
    match target {
        SearchTarget::All => seq![body],
        SearchTarget::Comments => ranges::clipped(src.comments, body),
        SearchTarget::Code => ranges::code_runs(src.comments, src.strings, body.0, body.1),
    }
}

/// The context that a match starting at `p` is reported with.
pub open spec fn target_context(src: SourceView, target: SearchTarget, p: int) -> MatchContext {
    match target {
        SearchTarget::All => context_at(src.comments, src.strings, p),
        SearchTarget::Comments => MatchContext::Comment,
        SearchTarget::Code => MatchContext::Code,
    }
}

/// The spans moved by `offset`.
pub open spec fn shifted(spans: Seq<(int, int)>, offset: int) -> Seq<(int, int)> {
    spans.map_values(|x: (int, int)| (x.0 + offset, x.1 + offset))
}

/// The matches of a pattern in each of the parts, in order, as spans of the source.
pub open spec fn candidates(bytes: Seq<u8>, matcher: RegexMatcher, parts: Seq<(int, int)>) -> Seq<
    (int, int),
>
    decreases parts.len(),
{
    if parts.len() == 0 {
        seq![]
    } else {
        let part = parts.last();
        candidates(bytes, matcher, parts.drop_last()) + shifted(
            pattern::matched_spans(matcher, bytes.subrange(part.0, part.1)),
            part.0,
        )
    }
}

/// The positions at which the spans start.
pub open spec fn starts(spans: Seq<(int, int)>) -> Set<int> {
    Set::new(|p: int| exists|i: int| 0 <= i < spans.len() && (#[trigger] spans[i]).0 == p)
}

/// The spans that start at a position not yet claimed, the first of each start.
pub open spec fn fresh(spans: Seq<(int, int)>, seen: Set<int>) -> Seq<(int, int)>
    decreases spans.len(),
{
    if spans.len() == 0 {
        seq![]
    } else {
        let before = spans.drop_last();
        let rest = fresh(before, seen);
        if seen.contains(spans.last().0) || starts(before).contains(spans.last().0) {
            rest
        } else {
            rest.push(spans.last())
        }
    }
}

// ---------------------------------------------------------------------------
// Chain conditions
// ---------------------------------------------------------------------------

/// The innermost scope of one of the kinds: the current one, or else the last such ancestor.
pub open spec fn nearest(
    ancestors: Seq<ScopeView>,
    current: ScopeView,
    kinds: Seq<ScopeKind>,
) -> Option<ScopeView>
    decreases ancestors.len(),
{
    if kinds.contains(current.kind) {
        Some(current)
    } else if ancestors.len() == 0 {
        None
    } else {
        nearest(ancestors.drop_last(), ancestors.last(), kinds)
    }
}

/// Where a match stands: its span, the body that is searched, the scope with that body, and the
/// scopes around it, outermost first.
pub struct PlaceView {
    pub from: int,
    pub to: int,
    pub body: (int, int),
    pub node: ScopeView,
    pub ancestors: Seq<ScopeView>,
}

/// The bounds in which a chained pattern is searched; none where the scope it asks for is missing.
pub open spec fn chain_scope(src: SourceView, at: PlaceView, rel: ChainRelationship) -> Option<
    (int, int),
> {
    match rel {
        ChainRelationship::After => Some((at.to, at.body.1)),
        ChainRelationship::Before => Some((at.body.0, at.from)),
        ChainRelationship::AnywhereInMethod => match nearest(
            at.ancestors,
            at.node,
            seq![ScopeKind::Function],
        ) {
            Some(n) => Some(scope_spec::body_of(n)),
            None => Some(at.body),
        },
        ChainRelationship::AnywhereInClass => match nearest(
            at.ancestors,
            at.node,
            seq![ScopeKind::Class, ScopeKind::Struct],
        ) {
            Some(n) => Some(scope_spec::body_of(n)),
            None => None,
        },
        ChainRelationship::AnywhereInNamespace => match nearest(
            at.ancestors,
            at.node,
            seq![ScopeKind::Namespace],
        ) {
            Some(n) => Some(scope_spec::body_of(n)),
            None => None,
        },
        ChainRelationship::AnywhereInStatement => Some(
            (
                lines::statement_start(
                    src.bytes,
                    src.comments,
                    src.strings,
                    at.from,
                    at.body.0,
                ),
                lines::statement_end(src.bytes, src.comments, src.strings, at.to, at.body.1),
            ),
        ),
    }
}

/// The bounds narrowed to `n` lines on either side of the match.
pub open spec fn within_lines(
    src: SourceView,
    at: PlaceView,
    bounds: (int, int),
    n: Option<usize>,
) -> (int, int) {
    match n {
        None => bounds,
        Some(k) => (
            vstd::math::max(
                lines::lines_before(src.bytes, at.from, k as int, at.body.0),
                bounds.0,
            ),
            vstd::math::min(
                lines::lines_after(src.bytes, at.to, k as int, at.body.1),
                bounds.1,
            ),
        ),
    }
}

/// The part of the source between the bounds; an empty part where they hold no bytes of it.
pub open spec fn part_between(src: SourceView, b: (int, int)) -> (int, int) {
    if b.0 < b.1 <= src.bytes.len() {
        b
    } else {
        (0, 0)
    }
}

/// The part of the source that a chain entry searches; none where the scope it asks for is missing.
pub open spec fn chain_bounds(src: SourceView, at: PlaceView, entry: ChainedPattern) -> Option<
    (int, int),
> {
    match chain_scope(src, at, entry.relationship) {
        None => None,
        Some(scope) => Some(part_between(src, within_lines(src, at, scope, entry.within_lines))),
    }
}

/// The pattern is found in the part.  Nothing is found in an empty one.
pub open spec fn is_found(src: SourceView, matcher: RegexMatcher, part: (int, int)) -> bool {
    part.0 < part.1 && pattern::matched_spans(
        matcher,
        src.bytes.subrange(part.0, part.1),
    ).len() > 0
}

/// A chain entry holds: the scope it asks for is there, and the pattern is found in the part to
/// search, or, for a negated entry, is absent from it.
pub open spec fn entry_holds(src: SourceView, at: PlaceView, entry: ChainedPattern) -> bool {
    match chain_bounds(src, at, entry) {
        None => false,
        Some(part) => is_found(src, entry.matcher, part) != entry.negate,
    }
}

/// Every entry of the chain holds.
pub open spec fn chain_holds(src: SourceView, at: PlaceView, chain: Seq<ChainedPattern>) -> bool {
    forall|i: int| 0 <= i < chain.len() ==> entry_holds(src, at, #[trigger] chain[i])
}

// ---------------------------------------------------------------------------
// One scope
// ---------------------------------------------------------------------------

/// A scope in its surroundings: the scopes around it, outermost first, and its path.
pub struct SiteView {
    pub node: ScopeView,
    pub ancestors: Seq<ScopeView>,
    pub path: Seq<Seq<char>>,
}

/// The place of a span in a scope.
pub open spec fn place(site: SiteView, span: (int, int)) -> PlaceView {
    PlaceView {
        from: span.0,
        to: span.1,
        body: scope_spec::body_of(site.node),
        node: site.node,
        ancestors: site.ancestors,
    }
}

/// The hit of a rule at a span of a scope.
pub open spec fn hit_at(src: SourceView, rule: Rule, site: SiteView, span: (int, int)) -> HitView {
    HitView {
        start: span.0,
        end: span.1,
        context: target_context(src, rule.search_target, span.0),
        scope_path: site.path,
    }
}

/// The hits at those of the spans for which the chain holds.
pub open spec fn chained_hits(
    src: SourceView,
    rule: Rule,
    site: SiteView,
    spans: Seq<(int, int)>,
) -> Seq<HitView>
    decreases spans.len(),
{
    if spans.len() == 0 {
        seq![]
    } else {
        let rest = chained_hits(src, rule, site, spans.drop_last());
        if chain_holds(src, place(site, spans.last()), rule.chain@) {
            rest.push(hit_at(src, rule, site, spans.last()))
        } else {
            rest
        }
    }
}

/// The rule searches the scope: its filter accepts the path, or it has none and the scope is a
/// named one; and the body lies in the source.
pub open spec fn is_searched(src: SourceView, rule: Rule, site: SiteView) -> bool {
    let body = scope_spec::body_of(site.node);
    &&& match rule.scope_filter {
        None => site.node.kind != ScopeKind::File && site.node.kind != ScopeKind::Block,
        Some(filter) => rules::filter_matches(filter@, site.path),
    }
    &&& body.0 <= body.1 <= src.bytes.len()
}

/// The matches of the trigger in the body of a scope; none if the rule does not search it.
pub open spec fn scope_candidates(src: SourceView, rule: Rule, site: SiteView) -> Seq<(int, int)> {
    if is_searched(src, rule, site) {
        candidates(
            src.bytes,
            rule.matcher,
            target_ranges(src, rule.search_target, scope_spec::body_of(site.node)),
        )
    } else {
        seq![]
    }
}

// ---------------------------------------------------------------------------
// The tree
// ---------------------------------------------------------------------------

/// The site of a scope under `path`, to which it adds its name if it has one.
pub open spec fn site_of(
    node: ScopeView,
    ancestors: Seq<ScopeView>,
    path: Seq<Seq<char>>,
) -> SiteView {
    SiteView {
        node,
        ancestors,
        path: if node.name.len() > 0 {
            path.push(node.name)
        } else {
            path
        },
    }
}

/// The hits of a rule in a scope and the scopes in it, inner scopes first, and the positions
/// claimed after them.  A scope leaves out the positions that were claimed before it.
pub open spec fn tree_hits(
    src: SourceView,
    rule: Rule,
    node: ScopeView,
    ancestors: Seq<ScopeView>,
    path: Seq<Seq<char>>,
    seen: Set<int>,
) -> (Seq<HitView>, Set<int>)
    decreases node, 0int,
{
    let site = site_of(node, ancestors, path);
    let inner = forest_hits(
        src,
        rule,
        node.children,
        node.children.len() as int,
        ancestors.push(node),
        site.path,
        seen,
    );
    let own = scope_candidates(src, rule, site);
    (
        inner.0 + chained_hits(src, rule, site, fresh(own, inner.1)),
        inner.1.union(starts(own)),
    )
}

/// The hits of a rule in the first `n` of the scopes, one after the other, and the positions
/// claimed after them.
pub open spec fn forest_hits(
    src: SourceView,
    rule: Rule,
    nodes: Seq<ScopeView>,
    n: int,
    ancestors: Seq<ScopeView>,
    path: Seq<Seq<char>>,
    seen: Set<int>,
) -> (Seq<HitView>, Set<int>)
    decreases nodes, n,
{
    if n <= 0 || n > nodes.len() {
        (seq![], seen)
    } else {
        let before = forest_hits(src, rule, nodes, n - 1, ancestors, path, seen);
        let last = tree_hits(src, rule, nodes[n - 1], ancestors, path, before.1);
        (before.0 + last.0, last.1)
    }
}

/// The hits of a rule in a source.
pub open spec fn rule_hits(src: SourceView, tree: ScopeView, rule: Rule) -> Seq<HitView> {
    tree_hits(src, rule, tree, seq![], seq![], Set::empty()).0
}

// ---------------------------------------------------------------------------
// Matches
// ---------------------------------------------------------------------------

/// The report of a hit.
pub open spec fn match_of(bytes: Seq<u8>, file: Seq<char>, rule: Rule, hit: HitView) -> MatchView {
    MatchView {
        rule_name: rule.name@,
        file,
        line: lex_spec::line_at(bytes, hit.start),
        column: hit.start - lines::line_start(bytes, hit.start) + 1,
        scope_path: hit.scope_path,
        matched_text: vstd::utf8::decode_utf8(bytes.subrange(hit.start, hit.end)),
        snippet: lines::snippet_of(bytes, hit.start, hit.end),
        ai_snippet: lines::snippet_of(bytes, hit.start, hit.end),
        message: rule.message@,
        severity: rule.severity,
        context: hit.context,
        ai_verdict: None,
    }
}

/// The reports of the hits of each rule, rule by rule.
pub open spec fn reported(
    bytes: Seq<u8>,
    file: Seq<char>,
    rules: Seq<Rule>,
    hits: Seq<Seq<HitView>>,
) -> Seq<MatchView>
    decreases rules.len(),
{
    if rules.len() == 0 {
        seq![]
    } else {
        reported(bytes, file, rules.drop_last(), hits.drop_last()) + hits.last().map_values(
            |h: HitView| match_of(bytes, file, rules.last(), h),
        )
    }
}

/// What a scan reports: the hits of the rules, rule by rule.
pub open spec fn scan_matches(
    src: SourceView,
    file: Seq<char>,
    tree: ScopeView,
    rules: Seq<Rule>,
) -> Seq<MatchView> {
    reported(
        src.bytes,
        file,
        rules,
        rules.map_values(|rule: Rule| rule_hits(src, tree, rule)),
    )
}

/// The hit covers whole characters.
pub open spec fn is_whole(bytes: Seq<u8>, hit: HitView) -> bool {
    vstd::utf8::is_char_boundary(bytes, hit.start) && vstd::utf8::is_char_boundary(bytes, hit.end)
}

/// All hits of a rule cover whole characters.
pub open spec fn hits_whole(src: SourceView, tree: ScopeView, rule: Rule) -> bool {
    forall|i: int|
        0 <= i < rule_hits(src, tree, rule).len() ==> is_whole(
            src.bytes,
            #[trigger] rule_hits(src, tree, rule)[i],
        )
}

} // verus!
