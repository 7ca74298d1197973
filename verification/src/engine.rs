//! Scan engine: walks the scope tree and applies rules to the source text.
//!
//! For each rule the engine performs a post-order walk of the tree: inner scopes come before the
//! scopes around them, and each scope claims the byte positions at which it finds the trigger.  A
//! scope leaves out the positions that are claimed already, so every match is attributed to the
//! innermost scope that the rule searches.
//!
//! Where the trigger is found, every chain condition of the rule is checked.  Each condition
//! searches a range that follows from the place of the trigger and its relationship; for the
//! enclosing class or namespace, the walk keeps the scopes around the current one.

use crate::chain_laws;
use crate::engine_spec;
use crate::engine_spec::{HitView, MatchView, PlaceView, SiteView, SourceView, VerdictView};
use crate::lexer;
use crate::lexer::LexOutput;
use crate::lines;
use crate::lines::{
    advance_n_lines, byte_to_line_col, extract_snippet, retreat_n_lines, statement_bounds,
};
use crate::lines_laws;
use crate::pattern;
use crate::pattern::find_spans;
use crate::ranges;
use crate::ranges::{code_gaps, in_any_range, ranges_overlapping};
use crate::rules::{ChainRelationship, ChainedPattern, Rule, SearchTarget, Severity};
use crate::scope;
use crate::scope::{ScopeKind, ScopeNode};
use crate::scope_spec;
use crate::scope_spec::ScopeView;
use crate::text;
use std::collections::HashSet;
use std::ops::Range;
use vstd::prelude::*;
use vstd::string::*;

verus! {

// ---------------------------------------------------------------------------
// Types
// ---------------------------------------------------------------------------

/// Where in the source a match was found.
#[derive(Debug, Clone, Copy, PartialEq, Eq, Structural)]
pub enum MatchContext {
    /// Neither comment nor string literal
    Code,
    /// A comment
    Comment,
    /// A string or character literal
    StringLiteral,
}

impl MatchContext {
    /// The text that [`MatchContext::as_str`] gives.
    pub open spec fn text(self) -> Seq<char> {
        match self {
            MatchContext::Code => "code"@,
            MatchContext::Comment => "comment"@,
            MatchContext::StringLiteral => "string"@,
        }
    }

    /// Name of the context in reports.
    pub fn as_str(&self) -> (r: &'static str)
        ensures
            r@ == self.text(),
            *self == MatchContext::Code ==> r@ == "code"@,
            *self == MatchContext::Comment ==> r@ == "comment"@,
            *self == MatchContext::StringLiteral ==> r@ == "string"@,
    {
        match self {
            MatchContext::Code => "code",
            MatchContext::Comment => "comment",
            MatchContext::StringLiteral => "string",
        }
    }
}

/// Verdict of the optional AI classifier.
#[derive(Debug)]
pub struct AiVerdict {
    pub is_false_positive: bool,
    pub reasoning: String,
}

impl View for AiVerdict {
    type V = VerdictView;

    open spec fn view(&self) -> VerdictView {
        VerdictView {
            is_false_positive: self.is_false_positive,
            reasoning: self.reasoning@,
        }
    }
}

impl Clone for AiVerdict {
    fn clone(&self) -> (r: Self)
        ensures
            r@ == self@,
    {
        AiVerdict {
            is_false_positive: self.is_false_positive,
            reasoning: self.reasoning.clone(),
        }
    }
}

/// A single rule match.
#[derive(Debug)]
pub struct ScanMatch {
    /// Name of the rule.
    pub rule_name: String,
    pub file: String,
    /// 1-based line of the first byte of the match.
    pub line: usize,
    /// 1-based column of the first byte, counted in bytes.
    pub column: usize,
    /// Scope names from outermost to innermost.
    pub scope_path: Vec<String>,
    /// The source text that the trigger matched.
    pub matched_text: String,
    /// The source lines that the match spans, without the white space around them.
    pub snippet: String,
    /// The source text that is sent to the AI classifier.
    pub ai_snippet: String,
    pub message: String,
    pub severity: Severity,
    /// Whether the match was found in code, a comment, or a string literal.
    pub context: MatchContext,
    /// Verdict of the AI classifier; `None` if it was not asked.
    pub ai_verdict: Option<AiVerdict>,
}

impl View for ScanMatch {
    type V = MatchView;

    open spec fn view(&self) -> MatchView {
        MatchView {
            rule_name: self.rule_name@,
            file: self.file@,
            line: self.line as int,
            column: self.column as int,
            scope_path: text::string_views(self.scope_path@),
            matched_text: self.matched_text@,
            snippet: self.snippet@,
            ai_snippet: self.ai_snippet@,
            message: self.message@,
            severity: self.severity,
            context: self.context,
            ai_verdict: match self.ai_verdict {
                Some(v) => Some(v@),
                None => None,
            },
        }
    }
}

/// A place where a rule fires.
#[derive(Debug)]
pub struct Hit {
    pub start: usize,
    pub end: usize,
    pub context: MatchContext,
    pub scope_path: Vec<String>,
}

impl View for Hit {
    type V = HitView;

    open spec fn view(&self) -> HitView {
        HitView {
            start: self.start as int,
            end: self.end as int,
            context: self.context,
            scope_path: text::string_views(self.scope_path@),
        }
    }
}

/// A source text with its lexical structure.
pub open spec fn source_view(source: &str, lex: &LexOutput) -> SourceView {
    SourceView { bytes: source.spec_bytes(), comments: lex@.comments, strings: lex@.strings }
}

// ---------------------------------------------------------------------------
// Candidates
// ---------------------------------------------------------------------------

/// Determine whether `pos` falls inside a comment, a string literal, or plain code.
pub fn classify_position(
    pos: usize,
    comment_ranges: &[Range<usize>],
    string_ranges: &[Range<usize>],
) -> (r: MatchContext)
    requires
        ranges::disjoint_sorted(lexer::range_views(comment_ranges@)),
        ranges::disjoint_sorted(lexer::range_views(string_ranges@)),
    ensures
        r == engine_spec::context_at(
            lexer::range_views(comment_ranges@),
            lexer::range_views(string_ranges@),
            pos as int,
        ),
{
    if in_any_range(pos, comment_ranges) {
        MatchContext::Comment
    } else if in_any_range(pos, string_ranges) {
        MatchContext::StringLiteral
    } else {
        MatchContext::Code
    }
}

/// The parts lie in the first `len` bytes.
pub open spec fn parts_within(parts: Seq<(int, int)>, len: int) -> bool {
    forall|i: int|
        #![trigger parts[i]]
        0 <= i < parts.len() ==> 0 <= parts[i].0 <= parts[i].1 <= len
}

/// The parts of `body` that are searched.
pub fn search_ranges(
    source: &str,
    target: SearchTarget,
    body: &Range<usize>,
    lex: &LexOutput,
) -> (r: Vec<Range<usize>>)
    requires
        lex.wf(),
        body.start <= body.end <= source.spec_bytes().len(),
    ensures
        lexer::range_views(r@) == engine_spec::target_ranges(
            source_view(source, lex),
            target,
            (body.start as int, body.end as int),
        ),
        parts_within(lexer::range_views(r@), source.spec_bytes().len() as int),
{
    let ghost b = (body.start as int, body.end as int);
    match target {
        SearchTarget::All => {
            let mut r: Vec<Range<usize>> = Vec::new();
            r.push(Range { start: body.start, end: body.end });
            assert(lexer::range_views(r@) =~= seq![b]);
            assert(parts_within(seq![b], source.spec_bytes().len() as int));
            r
        },
        SearchTarget::Comments => {
            proof {
                ranges::lemma_clipped_within(lex@.comments, b);
            }
            let r = ranges_overlapping(lex.comment_ranges.as_slice(), body);
            assert(parts_within(lexer::range_views(r@), source.spec_bytes().len() as int));
            r
        },
        SearchTarget::Code => {
            proof {
                ranges::law_code_gaps_maximal(lex@.comments, lex@.strings, b);
            }
            let r = code_gaps(body, lex.comment_ranges.as_slice(), lex.string_ranges.as_slice());
            proof {
                let gaps = ranges::code_runs(lex@.comments, lex@.strings, b.0, b.1);
                assert(lexer::range_views(r@) == gaps);
                assert forall|i: int| #![trigger gaps[i]] 0 <= i < gaps.len() implies 0
                    <= gaps[i].0 <= gaps[i].1 <= source.spec_bytes().len() by {
                    assert(b.0 <= gaps[i].0 < gaps[i].1 <= b.1);
                }
            }
            r
        },
    }
}

/// The matches of a pattern in the parts of the source.
fn find_candidates(source: &str, rule: &Rule, parts: &Vec<Range<usize>>) -> (r: Vec<
    (usize, usize),
>)
    requires
        parts_within(lexer::range_views(parts@), source.spec_bytes().len() as int),
    ensures
        pattern::span_views(r@) == engine_spec::candidates(
            source.spec_bytes(),
            rule.matcher,
            lexer::range_views(parts@),
        ),
        parts_within(pattern::span_views(r@), source.spec_bytes().len() as int),
{
    let bytes = source.as_bytes();
    let ghost views = lexer::range_views(parts@);
    let mut out: Vec<(usize, usize)> = Vec::new();
    let mut i: usize = 0;
    assert(views.take(0) =~= seq![]);
    assert(pattern::span_views(out@) =~= seq![]);
    while i < parts.len()
        invariant
            bytes@ == source.spec_bytes(),
            views == lexer::range_views(parts@),
            parts_within(views, bytes@.len() as int),
            i <= parts@.len(),
            pattern::span_views(out@) == engine_spec::candidates(
                bytes@,
                rule.matcher,
                views.take(i as int),
            ),
            parts_within(pattern::span_views(out@), bytes@.len() as int),
        decreases parts@.len() - i,
    {
        let from = parts[i].start;
        let to = parts[i].end;
        assert(views[i as int] == (from as int, to as int));
        let haystack = vstd::slice::slice_subrange(bytes, from, to);
        let found = find_spans(&rule.matcher, haystack, true);
        let ghost spans = pattern::span_views(found@);
        let ghost before = pattern::span_views(out@);
        let mut k: usize = 0;
        assert(before + engine_spec::shifted(spans.take(0), from as int) =~= before);
        while k < found.len()
            invariant
                from <= to <= bytes@.len(),
                spans == pattern::span_views(found@),
                pattern::spans_ordered(spans, to - from),
                k <= found@.len(),
                pattern::span_views(out@) == before + engine_spec::shifted(
                    spans.take(k as int),
                    from as int,
                ),
                parts_within(pattern::span_views(out@), bytes@.len() as int),
            decreases found@.len() - k,
        {
            let ghost prior = out@;
            assert(spans[k as int] == (found@[k as int].0 as int, found@[k as int].1 as int));
            out.push((from + found[k].0, from + found[k].1));
            proof {
                let span = (from + spans[k as int].0, from + spans[k as int].1);
                assert(pattern::span_views(out@) =~= pattern::span_views(prior).push(span));
                assert(pattern::span_views(out@) =~= before + engine_spec::shifted(
                    spans.take(k + 1),
                    from as int,
                ));
            }
            k = k + 1;
        }
        proof {
            assert(spans.take(k as int) =~= spans);
            assert(views.take(i + 1).drop_last() =~= views.take(i as int));
            assert(views.take(i + 1).last() == views[i as int]);
        }
        i = i + 1;
    }
    assert(views.take(i as int) =~= views);
    out
}

/// The positions in a set, as integers.
pub open spec fn claimed(seen: Set<usize>) -> Set<int> {
    Set::new(|p: int| 0 <= p <= usize::MAX && seen.contains(p as usize))
}

/// Claim the starts of the spans, and give back the spans whose start was not yet claimed.
pub fn claim(spans: &Vec<(usize, usize)>, seen: &mut HashSet<usize>) -> (r: Vec<(usize, usize)>)
    ensures
        pattern::span_views(r@) == engine_spec::fresh(
            pattern::span_views(spans@),
            claimed(old(seen)@),
        ),
        claimed(final(seen)@) == claimed(old(seen)@).union(
            engine_spec::starts(pattern::span_views(spans@)),
        ),
{
    broadcast use vstd::std_specs::hash::group_hash_axioms;

    let ghost views = pattern::span_views(spans@);
    let ghost before = claimed(seen@);
    let mut out: Vec<(usize, usize)> = Vec::new();
    let mut i: usize = 0;
    proof {
        assert(views.take(0) =~= seq![]);
        assert(pattern::span_views(out@) =~= seq![]);
        assert(claimed(seen@) =~= before.union(engine_spec::starts(views.take(0))));
    }
    while i < spans.len()
        invariant
            views == pattern::span_views(spans@),
            i <= spans@.len(),
            pattern::span_views(out@) == engine_spec::fresh(views.take(i as int), before),
            claimed(seen@) == before.union(engine_spec::starts(views.take(i as int))),
        decreases spans@.len() - i,
    {
        let span = spans[i];
        let ghost prior = out@;
        let ghost prior_seen = seen@;
        let ghost done = views.take(i as int);
        let ghost next = views.take(i + 1);
        proof {
            assert(next.drop_last() =~= done);
            assert(next.last() == (span.0 as int, span.1 as int));
            assert(claimed(seen@).contains(span.0 as int) == seen@.contains(span.0));
        }
        if seen.insert(span.0) {
            out.push(span);
            assert(pattern::span_views(out@) =~= pattern::span_views(prior).push(
                (span.0 as int, span.1 as int),
            ));
        }
        proof {
            assert forall|p: int| #[trigger] claimed(seen@).contains(p) == before.union(
                engine_spec::starts(next),
            ).contains(p) by {
                assert(claimed(prior_seen).contains(p) == before.union(
                    engine_spec::starts(done),
                ).contains(p));
                if engine_spec::starts(done).contains(p) {
                    let k = choose|k: int| 0 <= k < done.len() && (#[trigger] done[k]).0 == p;
                    assert(next[k].0 == p);
                }
                if engine_spec::starts(next).contains(p) {
                    let k = choose|k: int| 0 <= k < next.len() && (#[trigger] next[k]).0 == p;
                    if k < i {
                        assert(done[k].0 == p);
                    }
                }
                if p == span.0 {
                    assert(next[i as int].0 == p);
                }
            }
            assert(claimed(seen@) =~= before.union(engine_spec::starts(next)));
        }
        i = i + 1;
    }
    assert(views.take(i as int) =~= views);
    out
}

// ---------------------------------------------------------------------------
// Chain evaluation
// ---------------------------------------------------------------------------

/// The views of a sequence of scopes.
pub open spec fn scope_views(nodes: Seq<&ScopeNode>) -> Seq<ScopeView> {
    nodes.map_values(|n: &ScopeNode| n@)
}

fn is_one_of(kind: ScopeKind, kinds: &[ScopeKind]) -> (r: bool)
    ensures
        r == kinds@.contains(kind),
{
    let mut i: usize = 0;
    while i < kinds.len()
        invariant
            i <= kinds@.len(),
            forall|j: int| 0 <= j < i ==> kinds@[j] != kind,
        decreases kinds@.len() - i,
    {
        if kinds[i] == kind {
            assert(kinds@[i as int] == kind);
            return true;
        }
        i = i + 1;
    }
    false
}

/// Find the nearest scope of one of `kinds`: `current` itself, or else the innermost ancestor.
pub fn nearest_of_kind<'a>(
    ancestors: &Vec<&'a ScopeNode>,
    current: &'a ScopeNode,
    kinds: &[ScopeKind],
) -> (r: Option<&'a ScopeNode>)
    ensures
        engine_spec::nearest(scope_views(ancestors@), current@, kinds@) == (match r {
            Some(n) => Some(n@),
            None => None,
        }),
        r matches Some(n) ==> kinds@.contains(n.kind) && (*n == *current || exists|i: int|
            0 <= i < ancestors@.len() && *n == *#[trigger] ancestors@[i] && forall|j: int|
                i < j < ancestors@.len() ==> !kinds@.contains((#[trigger] ancestors@[j]).kind)),
        kinds@.contains(current.kind) ==> r == Some(current),
        r is None ==> forall|i: int|
            0 <= i < ancestors@.len() ==> !kinds@.contains((#[trigger] ancestors@[i]).kind),
{
    if is_one_of(current.kind, kinds) {
        return Some(current);
    }
    let ghost views = scope_views(ancestors@);
    let mut node = current;
    let mut i: usize = ancestors.len();
    assert(views.take(i as int) =~= views);
    while i > 0
        invariant
            views == scope_views(ancestors@),
            i <= ancestors@.len(),
            !kinds@.contains(node@.kind),
            !kinds@.contains(current.kind),
            forall|j: int|
                i <= j < ancestors@.len() ==> !kinds@.contains((#[trigger] ancestors@[j]).kind),
            engine_spec::nearest(views, current@, kinds@) == engine_spec::nearest(
                views.take(i as int),
                node@,
                kinds@,
            ),
        decreases i,
    {
        i = i - 1;
        node = ancestors[i];
        assert(views.take(i + 1).drop_last() =~= views.take(i as int));
        assert(views.take(i + 1).last() == node@);
        if is_one_of(node.kind, kinds) {
            return Some(node);
        }
    }
    None
}

/// The place of a match.
pub open spec fn place_view(
    trigger_start: usize,
    trigger_end: usize,
    body: &Range<usize>,
    current_node: &ScopeNode,
    ancestors: &Vec<&ScopeNode>,
) -> PlaceView {
    PlaceView {
        from: trigger_start as int,
        to: trigger_end as int,
        body: (body.start as int, body.end as int),
        node: current_node@,
        ancestors: scope_views(ancestors@),
    }
}

/// Bounds of the contents of a scope; none if they lie beyond every source.
fn bounds_of(node: &ScopeNode) -> (r: Option<(usize, usize)>)
    ensures
        match r {
            Some(b) => (b.0 as int, b.1 as int) == scope_spec::body_of(node@),
            None => scope_spec::body_of(node@).0 > usize::MAX >= scope_spec::body_of(node@).1,
        },
{
    if node.kind != ScopeKind::File && node.body_start == usize::MAX {
        return None;
    }
    let range = node.body_range();
    Some((range.start, range.end))
}

/// The bounds of a scope to search in; empty ones if they lie beyond every source.
fn search_bounds_of(node: &ScopeNode) -> (r: (usize, usize))
    ensures
        (r.0 as int, r.1 as int) == scope_spec::body_of(node@) || (r == (1usize, 0usize)
            && scope_spec::body_of(node@).0 > usize::MAX),
{
    match bounds_of(node) {
        Some(b) => b,
        None => (1, 0),
    }
}

/// The scope that an entry asks for is missing: neither the current scope nor one around it is a class or
/// a struct, or a namespace.  The other entries ask for none.
pub open spec fn misses_scope(
    rel: ChainRelationship,
    current_node: &ScopeNode,
    ancestors: &Vec<&ScopeNode>,
) -> bool {
    match rel {
        ChainRelationship::AnywhereInClass => current_node.kind != ScopeKind::Class
            && current_node.kind != ScopeKind::Struct && forall|i: int|
            0 <= i < ancestors@.len() ==> (#[trigger] ancestors@[i]).kind != ScopeKind::Class
                && ancestors@[i].kind != ScopeKind::Struct,
        ChainRelationship::AnywhereInNamespace => current_node.kind != ScopeKind::Namespace
            && forall|i: int|
            0 <= i < ancestors@.len() ==> (#[trigger] ancestors@[i]).kind != ScopeKind::Namespace,
        _ => false,
    }
}

proof fn lemma_scope_missing(
    src: SourceView,
    at: PlaceView,
    entry: ChainedPattern,
    current_node: &ScopeNode,
    ancestors: &Vec<&ScopeNode>,
)
    requires
        at.node == current_node@,
        at.ancestors == scope_views(ancestors@),
    ensures
        engine_spec::chain_bounds(src, at, entry) is None == misses_scope(
            entry.relationship,
            current_node,
            ancestors,
        ),
{
    chain_laws::law_class_missing(src, at);
    chain_laws::law_namespace_missing(src, at);
    let line = chain_laws::lineage(at);
    assert(line[line.len() - 1] == current_node@);
    assert(forall|i: int| 0 <= i < ancestors@.len() ==> line[i] == (#[trigger] ancestors@[i])@);
    assert(forall|i: int| 0 <= i < line.len() - 1 ==> #[trigger] line[i] == ancestors@[i]@);
}

/// The part of the source that a chain entry searches around the trigger, which is empty if it
/// holds no bytes; none if the scope that the entry asks for is missing.
///
/// `body` is the body of `current_node`, and `ancestors` are the scopes around that, outermost
/// first.
pub fn chain_range(
    source: &str,
    trigger_start: usize,
    trigger_end: usize,
    body: &Range<usize>,
    entry: &ChainedPattern,
    current_node: &ScopeNode,
    ancestors: &Vec<&ScopeNode>,
    lex: &LexOutput,
) -> (r: Option<(usize, usize)>)
    requires
        lex.wf(),
        trigger_start <= source.spec_bytes().len(),
        body.end <= source.spec_bytes().len(),
    ensures
        engine_spec::chain_bounds(
            source_view(source, lex),
            place_view(trigger_start, trigger_end, body, current_node, ancestors),
            *entry,
        ) == (match r {
            Some(b) => Some((b.0 as int, b.1 as int)),
            None => None,
        }),
        r is None == misses_scope(entry.relationship, current_node, ancestors),
{
    let ghost src = source_view(source, lex);
    let ghost at = place_view(trigger_start, trigger_end, body, current_node, ancestors);
    proof {
        lemma_scope_missing(src, at, *entry, current_node, ancestors);
    }
    let bytes = source.as_bytes();
    let methods = [ScopeKind::Function];
    let classes = [ScopeKind::Class, ScopeKind::Struct];
    let namespaces = [ScopeKind::Namespace];
    assert(methods@ =~= seq![ScopeKind::Function]);
    assert(classes@ =~= seq![ScopeKind::Class, ScopeKind::Struct]);
    assert(namespaces@ =~= seq![ScopeKind::Namespace]);
    let scope: Option<(usize, usize)> = match entry.relationship {
        ChainRelationship::After => Some((trigger_end, body.end)),
        ChainRelationship::Before => Some((body.start, trigger_start)),
        ChainRelationship::AnywhereInMethod => {
            match nearest_of_kind(ancestors, current_node, methods.as_slice()) {
                Some(n) => Some(search_bounds_of(n)),
                None => Some((body.start, body.end)),
            }
        },
        ChainRelationship::AnywhereInClass => {
            match nearest_of_kind(ancestors, current_node, classes.as_slice()) {
                Some(n) => Some(search_bounds_of(n)),
                None => None,
            }
        },
        ChainRelationship::AnywhereInNamespace => {
            match nearest_of_kind(ancestors, current_node, namespaces.as_slice()) {
                Some(n) => Some(search_bounds_of(n)),
                None => None,
            }
        },
        ChainRelationship::AnywhereInStatement => Some(
            statement_bounds(
                bytes,
                trigger_start,
                trigger_end,
                body,
                lex.comment_ranges.as_slice(),
                lex.string_ranges.as_slice(),
            ),
        ),
    };
    proof {
        match engine_spec::chain_scope(src, at, entry.relationship) {
            Some(b) => {
                assert(scope matches Some(c) && ((c.0 as int, c.1 as int) == b || (c == (
                    1usize,
                    0usize,
                ) && b.0 > usize::MAX)));
            },
            None => {
                assert(scope is None);
            },
        }
    }
    let (mut from, mut to) = match scope {
        Some(b) => b,
        None => {
            return None;
        },
    };
    if let Some(n) = entry.within_lines {
        let first = retreat_n_lines(bytes, trigger_start, n, body.start);
        if first > from {
            from = first;
        }
        let last = advance_n_lines(bytes, trigger_end, n, body.end);
        if last < to {
            to = last;
        }
    }
    if from < to && to <= bytes.len() {
        Some((from, to))
    } else {
        Some((0, 0))
    }
}

/// Whether a chain entry is satisfied, given whether its pattern was found: it must be present, or,
/// for a negated entry, absent.
pub fn entry_satisfied(found: bool, negate: bool) -> (r: bool)
    ensures
        r == (found != negate),
{
    found != negate
}

/// Whether every chained pattern is satisfied for the trigger match.
pub fn chain_satisfied(
    source: &str,
    trigger_start: usize,
    trigger_end: usize,
    body: &Range<usize>,
    chain: &Vec<ChainedPattern>,
    current_node: &ScopeNode,
    ancestors: &Vec<&ScopeNode>,
    lex: &LexOutput,
) -> (r: bool)
    requires
        lex.wf(),
        trigger_start <= source.spec_bytes().len(),
        body.end <= source.spec_bytes().len(),
    ensures
        r == engine_spec::chain_holds(
            source_view(source, lex),
            place_view(trigger_start, trigger_end, body, current_node, ancestors),
            chain@,
        ),
{
    let ghost src = source_view(source, lex);
    let ghost at = place_view(trigger_start, trigger_end, body, current_node, ancestors);
    let mut i: usize = 0;
    while i < chain.len()
        invariant
            lex.wf(),
            trigger_start <= source.spec_bytes().len(),
            body.end <= source.spec_bytes().len(),
            src == source_view(source, lex),
            at == place_view(trigger_start, trigger_end, body, current_node, ancestors),
            i <= chain@.len(),
            forall|j: int|
                0 <= j < i ==> engine_spec::entry_holds(src, at, #[trigger] chain@[j]),
        decreases chain@.len() - i,
    {
        let entry = &chain[i];
        let bounds = chain_range(
            source,
            trigger_start,
            trigger_end,
            body,
            entry,
            current_node,
            ancestors,
            lex,
        );
        let (from, to) = match bounds {
            Some(b) => b,
            None => {
                assert(!engine_spec::entry_holds(src, at, chain@[i as int]));
                return false;
            },
        };
        let mut found = false;
        if from < to {
            let haystack = vstd::slice::slice_subrange(source.as_bytes(), from, to);
            let spans = find_spans(&entry.matcher, haystack, false);
            assert(pattern::span_views(spans@).len() == spans@.len());
            found = spans.len() > 0;
        }
        assert(found == engine_spec::is_found(src, entry.matcher, (from as int, to as int)));
        if !entry_satisfied(found, entry.negate) {
            assert(!engine_spec::entry_holds(src, at, chain@[i as int]));
            return false;
        }
        i = i + 1;
    }
    true
}

// ---------------------------------------------------------------------------
// Scopes
// ---------------------------------------------------------------------------

/// The views of a sequence of hits.
pub open spec fn hit_views(hits: Seq<Hit>) -> Seq<HitView> {
    hits.map_values(|h: Hit| h@)
}

/// The site of a scope with a given path.
pub open spec fn site_view(
    node: &ScopeNode,
    ancestors: &Vec<&ScopeNode>,
    path: &Vec<String>,
) -> SiteView {
    SiteView {
        node: node@,
        ancestors: scope_views(ancestors@),
        path: text::string_views(path@),
    }
}

/// Search one scope body for the trigger, claim what is found, and add a hit wherever the chain
/// holds at a newly claimed position.
fn search_scope(
    source: &str,
    body: &Range<usize>,
    rule: &Rule,
    scope_path: &Vec<String>,
    seen: &mut HashSet<usize>,
    lex: &LexOutput,
    current_node: &ScopeNode,
    ancestors: &Vec<&ScopeNode>,
    out: &mut Vec<Hit>,
)
    requires
        lex.wf(),
        body.start <= body.end <= source.spec_bytes().len(),
        (body.start as int, body.end as int) == scope_spec::body_of(current_node@),
    ensures
        ({
            let src = source_view(source, lex);
            let site = site_view(current_node, ancestors, scope_path);
            let found = engine_spec::candidates(
                src.bytes,
                rule.matcher,
                engine_spec::target_ranges(
                    src,
                    rule.search_target,
                    scope_spec::body_of(site.node),
                ),
            );
            &&& hit_views(final(out)@) == hit_views(old(out)@) + engine_spec::chained_hits(
                src,
                *rule,
                site,
                engine_spec::fresh(found, claimed(old(seen)@)),
            )
            &&& claimed(final(seen)@) == claimed(old(seen)@).union(engine_spec::starts(found))
        }),
        bounded_hits(old(out)@, source) ==> bounded_hits(final(out)@, source),
{
    let ghost src = source_view(source, lex);
    let ghost site = site_view(current_node, ancestors, scope_path);
    let ghost before = hit_views(out@);
    let parts = search_ranges(source, rule.search_target, body, lex);
    let found = find_candidates(source, rule, &parts);
    let spans = claim(&found, seen);
    let ghost views = pattern::span_views(spans@);
    proof {
        lemma_fresh_within(
            pattern::span_views(found@),
            claimed(old(seen)@),
            source.spec_bytes().len() as int,
        );
    }
    let mut i: usize = 0;
    assert(views.take(0) =~= seq![]);
    assert(before + Seq::<HitView>::empty() =~= before);
    while i < spans.len()
        invariant
            lex.wf(),
            body.start <= body.end <= source.spec_bytes().len(),
            (body.start as int, body.end as int) == scope_spec::body_of(current_node@),
            src == source_view(source, lex),
            site == site_view(current_node, ancestors, scope_path),
            views == pattern::span_views(spans@),
            parts_within(views, source.spec_bytes().len() as int),
            i <= spans@.len(),
            hit_views(out@) == before + engine_spec::chained_hits(
                src,
                *rule,
                site,
                views.take(i as int),
            ),
            bounded_hits(old(out)@, source) ==> bounded_hits(out@, source),
        decreases spans@.len() - i,
    {
        let (start, end) = spans[i];
        let ghost done = views.take(i as int);
        let ghost next = views.take(i + 1);
        let ghost prior = out@;
        proof {
            assert(views[i as int] == (start as int, end as int));
            assert(next.drop_last() =~= done);
            assert(next.last() == (start as int, end as int));
            assert(place_view(start, end, body, current_node, ancestors) == engine_spec::place(
                site,
                next.last(),
            ));
        }
        if chain_satisfied(source, start, end, body, &rule.chain, current_node, ancestors, lex) {
            let context = match rule.search_target {
                SearchTarget::All => classify_position(
                    start,
                    lex.comment_ranges.as_slice(),
                    lex.string_ranges.as_slice(),
                ),
                SearchTarget::Comments => MatchContext::Comment,
                SearchTarget::Code => MatchContext::Code,
            };
            let hit = Hit { start, end, context, scope_path: clone_strings(scope_path.as_slice()) };
            out.push(hit);
            proof {
                assert(hit@ == engine_spec::hit_at(src, *rule, site, next.last()));
                assert(hit_views(out@) =~= hit_views(prior).push(hit@));
                assert(hit_views(out@) =~= before + engine_spec::chained_hits(
                    src,
                    *rule,
                    site,
                    next,
                ));
            }
        }
        i = i + 1;
    }
    assert(views.take(i as int) =~= views);
}

/// The hits are spans of the source.
pub open spec fn bounded_hits(hits: Seq<Hit>, source: &str) -> bool {
    forall|i: int|
        #![trigger hits[i]]
        0 <= i < hits.len() ==> hits[i].start <= hits[i].end <= source.spec_bytes().len()
}

proof fn lemma_fresh_within(spans: Seq<(int, int)>, seen: Set<int>, len: int)
    requires
        parts_within(spans, len),
    ensures
        parts_within(engine_spec::fresh(spans, seen), len),
    decreases spans.len(),
{
    if spans.len() > 0 {
        let init = spans.drop_last();
        assert forall|i: int| 0 <= i < init.len() implies #[trigger] init[i] == spans[i] by {}
        lemma_fresh_within(init, seen, len);
        let rest = engine_spec::fresh(init, seen);
        let all = engine_spec::fresh(spans, seen);
        assert(spans.last() == spans[spans.len() - 1]);
        assert forall|i: int| #![trigger all[i]] 0 <= i < all.len() implies 0 <= all[i].0
            <= all[i].1 <= len by {
            if i < rest.len() {
                assert(all[i] == rest[i]);
            }
        }
    }
}

fn clone_strings(parts: &[String]) -> (r: Vec<String>)
    ensures
        text::string_views(r@) == text::string_views(parts@),
{
    let mut out: Vec<String> = Vec::new();
    let mut i: usize = 0;
    while i < parts.len()
        invariant
            i <= parts@.len(),
            out@.len() == i,
            forall|j: int| 0 <= j < i ==> (#[trigger] out@[j])@ == parts@[j]@,
        decreases parts@.len() - i,
    {
        out.push(parts[i].clone());
        i = i + 1;
    }
    assert(text::string_views(out@) =~= text::string_views(parts@));
    out
}

fn as_strs<'a>(parts: &'a Vec<String>) -> (r: Vec<&'a str>)
    ensures
        scope::str_views(r@) == text::string_views(parts@),
{
    let mut out: Vec<&'a str> = Vec::new();
    let mut i: usize = 0;
    while i < parts.len()
        invariant
            i <= parts@.len(),
            out@.len() == i,
            forall|j: int| 0 <= j < i ==> (#[trigger] out@[j])@ == parts@[j]@,
        decreases parts@.len() - i,
    {
        out.push(parts[i].as_str());
        i = i + 1;
    }
    assert(scope::str_views(out@) =~= text::string_views(parts@));
    out
}

// ---------------------------------------------------------------------------
// The tree
// ---------------------------------------------------------------------------

/// Scan `node` and all scopes in it for one rule, inner scopes first.
///
/// `current_path` and `ancestors` are those of the scope around `node`, and are left as they were.
fn scan_rule_postorder<'tree>(
    source: &str,
    node: &'tree ScopeNode,
    rule: &Rule,
    current_path: &mut Vec<String>,
    ancestors: &mut Vec<&'tree ScopeNode>,
    seen: &mut HashSet<usize>,
    lex: &LexOutput,
    out: &mut Vec<Hit>,
)
    requires
        lex.wf(),
    ensures
        text::string_views(final(current_path)@) == text::string_views(old(current_path)@),
        scope_views(final(ancestors)@) == scope_views(old(ancestors)@),
        ({
            let r = engine_spec::tree_hits(
                source_view(source, lex),
                *rule,
                node@,
                scope_views(old(ancestors)@),
                text::string_views(old(current_path)@),
                claimed(old(seen)@),
            );
            &&& hit_views(final(out)@) == hit_views(old(out)@) + r.0
            &&& claimed(final(seen)@) == r.1
        }),
        bounded_hits(old(out)@, source) ==> bounded_hits(final(out)@, source),
    decreases node,
{
    let ghost src = source_view(source, lex);
    let ghost path0 = text::string_views(current_path@);
    let ghost anc0 = scope_views(ancestors@);
    let ghost seen0 = claimed(seen@);
    let ghost out0 = hit_views(out@);
    let ghost site = engine_spec::site_of(node@, anc0, path0);

    let pushed = !node.name.as_str().is_empty();
    if pushed {
        current_path.push(node.name.clone());
        assert(text::string_views(current_path@) =~= path0.push(node.name@));
    }
    assert(text::string_views(current_path@) == site.path);

    ancestors.push(node);
    assert(scope_views(ancestors@) =~= anc0.push(node@));
    proof {
        scope::lemma_child_views(*node);
    }
    let mut i: usize = 0;
    assert(out0 + Seq::<HitView>::empty() =~= out0);
    while i < node.children.len()
        invariant
            lex.wf(),
            src == source_view(source, lex),
            i <= node.children@.len(),
            node@.children.len() == node.children@.len(),
            forall|k: int|
                0 <= k < node.children@.len() ==> #[trigger] node@.children[k]
                    == node.children@[k]@,
            text::string_views(current_path@) == site.path,
            scope_views(ancestors@) == anc0.push(node@),
            ({
                let r = engine_spec::forest_hits(
                    src,
                    *rule,
                    node@.children,
                    i as int,
                    anc0.push(node@),
                    site.path,
                    seen0,
                );
                &&& hit_views(out@) == out0 + r.0
                &&& claimed(seen@) == r.1
            }),
            bounded_hits(old(out)@, source) ==> bounded_hits(out@, source),
        decreases node.children@.len() - i,
    {
        let ghost r0 = engine_spec::forest_hits(
            src,
            *rule,
            node@.children,
            i as int,
            anc0.push(node@),
            site.path,
            seen0,
        );
        let child = &node.children[i];
        assert(node@.children[i as int] == child@);
        scan_rule_postorder(source, child, rule, current_path, ancestors, seen, lex, out);
        proof {
            let r1 = engine_spec::tree_hits(
                src,
                *rule,
                child@,
                anc0.push(node@),
                site.path,
                r0.1,
            );
            assert((out0 + r0.0) + r1.0 =~= out0 + (r0.0 + r1.0));
        }
        i = i + 1;
    }
    let ghost anc1 = ancestors@;
    ancestors.pop();
    assert(scope_views(ancestors@) =~= anc0) by {
        assert(scope_views(ancestors@) =~= scope_views(anc1).drop_last());
    }

    let selected = match &rule.scope_filter {
        None => node.kind.is_named(),
        Some(filter) => {
            let names = as_strs(current_path);
            filter.matches(names.as_slice())
        },
    };
    let ghost inner = engine_spec::forest_hits(
        src,
        *rule,
        node@.children,
        node@.children.len() as int,
        anc0.push(node@),
        site.path,
        seen0,
    );
    let ghost own = engine_spec::scope_candidates(src, *rule, site);
    let mut searched = false;
    if selected {
        if let Some((from, to)) = bounds_of(node) {
            if from <= to && to <= source.as_bytes().len() {
                let body = Range { start: from, end: to };
                assert(site_view(node, ancestors, current_path) == site);
                assert(engine_spec::is_searched(src, *rule, site));
                search_scope(source, &body, rule, current_path, seen, lex, node, ancestors, out);
                searched = true;
            }
        }
    }
    proof {
        let hits = engine_spec::chained_hits(
            src,
            *rule,
            site,
            engine_spec::fresh(own, inner.1),
        );
        if !searched {
            assert(own =~= seq![]);
            assert(engine_spec::starts(own) =~= Set::empty());
            assert(inner.1.union(engine_spec::starts(own)) =~= inner.1);
            assert(hits =~= seq![]);
            assert(inner.0 + hits =~= inner.0);
        }
        assert((out0 + inner.0) + hits =~= out0 + (inner.0 + hits));
    }
    if pushed {
        let ghost full = current_path@;
        current_path.pop();
        assert(text::string_views(current_path@) =~= text::string_views(full).drop_last());
        assert(site.path.drop_last() =~= path0);
    }
}

// ---------------------------------------------------------------------------
// Files
// ---------------------------------------------------------------------------

/// The views of a sequence of matches.
pub open spec fn match_views(matches: Seq<ScanMatch>) -> Seq<MatchView> {
    matches.map_values(|m: ScanMatch| m@)
}

/// The places where one rule fires in a source.
pub fn scan_hits(source: &str, scope_tree: &ScopeNode, rule: &Rule, lex: &LexOutput) -> (r: Vec<
    Hit,
>)
    requires
        lex.wf(),
    ensures
        hit_views(r@) == engine_spec::rule_hits(source_view(source, lex), scope_tree@, *rule),
        bounded_hits(r@, source),
{
    broadcast use vstd::std_specs::hash::group_hash_axioms;

    let mut seen: HashSet<usize> = HashSet::new();
    let mut current_path: Vec<String> = Vec::new();
    let mut ancestors: Vec<&ScopeNode> = Vec::new();
    let mut out: Vec<Hit> = Vec::new();
    proof {
        assert(claimed(seen@) =~= Set::empty());
        assert(text::string_views(current_path@) =~= seq![]);
        assert(scope_views(ancestors@) =~= seq![]);
        assert(hit_views(out@) =~= seq![]);
    }
    scan_rule_postorder(
        source,
        scope_tree,
        rule,
        &mut current_path,
        &mut ancestors,
        &mut seen,
        lex,
        &mut out,
    );
    assert(hit_views(out@) =~= engine_spec::rule_hits(
        source_view(source, lex),
        scope_tree@,
        *rule,
    ));
    out
}

/// Whether a hit starts and ends between two characters.
fn is_whole_hit(source: &str, hit: &Hit) -> (r: bool)
    ensures
        r == engine_spec::is_whole(source.spec_bytes(), hit@),
{
    source.is_char_boundary(hit.start) && source.is_char_boundary(hit.end)
}

/// The match carries the name, the message and the severity of the rule.
pub open spec fn carries(m: ScanMatch, rule: Rule) -> bool {
    m.rule_name@ == rule.name@ && m.message@ == rule.message@ && m.severity == rule.severity
}

/// The match carries the name, the message and the severity of one of the rules.
pub open spec fn is_from(m: ScanMatch, rules: Seq<Rule>) -> bool {
    exists|i: int| 0 <= i < rules.len() && carries(m, #[trigger] rules[i])
}

/// The match tells position `p`: the line is one more than the newlines before it, and the column one
/// more than the bytes between it and the start of its line.
pub open spec fn stands_at(m: ScanMatch, bytes: Seq<u8>, p: int) -> bool {
    let start = p - m.column + 1;
    &&& m.line == lines_laws::newlines_in(bytes, 0, p) + 1
    &&& 0 <= start <= p
    &&& start == 0 || bytes[start - 1] == 10u8
    &&& forall|q: int| start <= q < p ==> bytes[q] != 10u8
}

/// Report a hit of a rule.
pub fn emit_match(source: &str, path: &str, rule: &Rule, hit: &Hit) -> (r: ScanMatch)
    requires
        hit.start <= hit.end <= source.spec_bytes().len() < usize::MAX,
        engine_spec::is_whole(source.spec_bytes(), hit@),
    ensures
        r@ == engine_spec::match_of(source.spec_bytes(), path@, *rule, hit@),
        carries(r, *rule),
        r.file@ == path@,
        r@.scope_path == hit@.scope_path,
        r.context == hit.context,
        r.ai_verdict is None,
        r.matched_text@ == vstd::utf8::decode_utf8(
            source.spec_bytes().subrange(hit.start as int, hit.end as int),
        ),
        r.ai_snippet@ == r.snippet@,
        stands_at(r, source.spec_bytes(), hit.start as int),
{
    proof {
        lines_laws::lemma_line(source.spec_bytes(), hit.start as int);
        lines::lemma_line_start(source.spec_bytes(), hit.start as int);
    }
    let (line, column) = byte_to_line_col(source, hit.start);
    let snippet = extract_snippet(source, hit.start, hit.end - hit.start);
    ScanMatch {
        rule_name: rule.name.clone(),
        file: path.to_owned(),
        line,
        column,
        scope_path: clone_strings(hit.scope_path.as_slice()),
        matched_text: text::slice_str(source, hit.start, hit.end).to_owned(),
        ai_snippet: snippet.clone(),
        snippet,
        message: rule.message.clone(),
        severity: rule.severity,
        context: hit.context,
        ai_verdict: None,
    }
}

/// The hits of all rules, rule by rule.
pub open spec fn all_hits_of(
    hits: Seq<Vec<Hit>>,
    source: &str,
    scope_tree: &ScopeNode,
    rules: Seq<Rule>,
    lex: &LexOutput,
) -> bool {
    &&& hits.len() == rules.len()
    &&& forall|i: int|
        #![trigger hits[i]]
        #![trigger rules[i]]
        0 <= i < hits.len() ==> hit_views(hits[i]@) == engine_spec::rule_hits(
            source_view(source, lex),
            scope_tree@,
            rules[i],
        ) && bounded_hits(hits[i]@, source)
}

/// The places where each of the rules fires in a source.  Each rule is scanned on its own, so that
/// none keeps another from firing at the same place.
pub fn scan_all_hits(
    source: &str,
    scope_tree: &ScopeNode,
    rules: &[Rule],
    lex: &LexOutput,
) -> (r: Vec<Vec<Hit>>)
    requires
        lex.wf(),
    ensures
        all_hits_of(r@, source, scope_tree, rules@, lex),
{
    let mut out: Vec<Vec<Hit>> = Vec::new();
    let mut i: usize = 0;
    while i < rules.len()
        invariant
            lex.wf(),
            i <= rules@.len(),
            all_hits_of(out@, source, scope_tree, rules@.take(i as int), lex),
        decreases rules@.len() - i,
    {
        let hits = scan_hits(source, scope_tree, &rules[i], lex);
        let ghost before = out@;
        out.push(hits);
        proof {
            let next = rules@.take(i + 1);
            assert forall|k: int|
                #![trigger out@[k]]
                #![trigger next[k]]
                0 <= k < out@.len() implies hit_views(out@[k]@) == engine_spec::rule_hits(
                source_view(source, lex),
                scope_tree@,
                next[k],
            ) && bounded_hits(out@[k]@, source) by {
                if k < i {
                    assert(out@[k] == before[k]);
                    assert(next[k] == rules@.take(i as int)[k]);
                }
            }
        }
        i = i + 1;
    }
    assert(rules@.take(i as int) =~= rules@);
    out
}

/// Whether all hits start and end between two characters.
fn are_whole_hits(source: &str, hits: &Vec<Hit>) -> (r: bool)
    ensures
        r == forall|i: int|
            0 <= i < hits@.len() ==> engine_spec::is_whole(
                source.spec_bytes(),
                #[trigger] hit_views(hits@)[i],
            ),
{
    let ghost views = hit_views(hits@);
    let mut i: usize = 0;
    while i < hits.len()
        invariant
            views == hit_views(hits@),
            i <= hits@.len(),
            forall|k: int|
                0 <= k < i ==> engine_spec::is_whole(source.spec_bytes(), #[trigger] views[k]),
        decreases hits@.len() - i,
    {
        assert(views[i as int] == hits@[i as int]@);
        if !is_whole_hit(source, &hits[i]) {
            return false;
        }
        i = i + 1;
    }
    true
}

/// Report the hits of all rules.
pub fn report_hits(source: &str, path: &str, rules: &[Rule], hits: &Vec<Vec<Hit>>) -> (r: Vec<
    ScanMatch,
>)
    requires
        source.spec_bytes().len() < usize::MAX,
        hits@.len() == rules@.len(),
        forall|i: int|
            #![trigger hits@[i]]
            0 <= i < hits@.len() ==> bounded_hits(hits@[i]@, source) && forall|k: int|
                0 <= k < hits@[i]@.len() ==> engine_spec::is_whole(
                    source.spec_bytes(),
                    #[trigger] hit_views(hits@[i]@)[k],
                ),
    ensures
        match_views(r@) == engine_spec::reported(
            source.spec_bytes(),
            path@,
            rules@,
            hits@.map_values(|h: Vec<Hit>| hit_views(h@)),
        ),
        forall|k: int|
            0 <= k < r@.len() ==> is_from(#[trigger] r@[k], rules@) && r@[k].file@ == path@,
{
    let ghost bytes = source.spec_bytes();
    let ghost all = hits@.map_values(|h: Vec<Hit>| hit_views(h@));
    let mut out: Vec<ScanMatch> = Vec::new();
    let mut i: usize = 0;
    proof {
        assert(rules@.take(0) =~= seq![]);
        assert(match_views(out@) =~= seq![]);
    }
    while i < rules.len()
        invariant
            bytes == source.spec_bytes(),
            bytes.len() < usize::MAX,
            all == hits@.map_values(|h: Vec<Hit>| hit_views(h@)),
            hits@.len() == rules@.len(),
            forall|i: int|
                #![trigger hits@[i]]
                0 <= i < hits@.len() ==> bounded_hits(hits@[i]@, source) && forall|k: int|
                    0 <= k < hits@[i]@.len() ==> engine_spec::is_whole(
                        bytes,
                        #[trigger] hit_views(hits@[i]@)[k],
                    ),
            i <= rules@.len(),
            match_views(out@) == engine_spec::reported(
                bytes,
                path@,
                rules@.take(i as int),
                all.take(i as int),
            ),
            forall|j: int|
                0 <= j < out@.len() ==> is_from(#[trigger] out@[j], rules@) && out@[j].file@
                    == path@,
        decreases rules@.len() - i,
    {
        let rule = &rules[i];
        let own = &hits[i];
        let ghost views = hit_views(own@);
        let ghost before = match_views(out@);
        let ghost report = |h: HitView| engine_spec::match_of(bytes, path@, *rule, h);
        let mut k: usize = 0;
        assert(*own == hits@[i as int]);
        assert(before + views.take(0).map_values(report) =~= before);
        while k < own.len()
            invariant
                bytes == source.spec_bytes(),
                bytes.len() < usize::MAX,
                views == hit_views(own@),
                report == (|h: HitView| engine_spec::match_of(bytes, path@, *rule, h)),
                bounded_hits(own@, source),
                forall|j: int|
                    0 <= j < own@.len() ==> engine_spec::is_whole(bytes, #[trigger] views[j]),
                k <= own@.len(),
                i < rules@.len(),
                *rule == rules@[i as int],
                match_views(out@) == before + views.take(k as int).map_values(report),
                forall|j: int|
                    0 <= j < out@.len() ==> is_from(#[trigger] out@[j], rules@) && out@[j].file@
                        == path@,
            decreases own@.len() - k,
        {
            let hit = &own[k];
            assert(views[k as int] == hit@);
            let ghost prior = out@;
            let m = emit_match(source, path, rule, hit);
            out.push(m);
            proof {
                assert(carries(m, rules@[i as int]));
                assert(match_views(out@) =~= match_views(prior).push(m@));
                assert(views.take(k + 1).map_values(report) =~= views.take(k as int).map_values(
                    report,
                ).push(report(views[k as int])));
                assert(match_views(out@) =~= before + views.take(k + 1).map_values(report));
            }
            k = k + 1;
        }
        proof {
            assert(views.take(k as int) =~= views);
            assert(rules@.take(i + 1).drop_last() =~= rules@.take(i as int));
            assert(rules@.take(i + 1).last() == *rule);
            assert(all.take(i + 1).drop_last() =~= all.take(i as int));
            assert(all.take(i + 1).last() == views);
            assert(views.map_values(report) =~= views.map_values(
                |h: HitView| engine_spec::match_of(bytes, path@, rules@.take(i + 1).last(), h),
            ));
        }
        i = i + 1;
    }
    assert(rules@.take(i as int) =~= rules@);
    assert(all.take(i as int) =~= all);
    out
}

proof fn lemma_reported(
    source: &str,
    path: Seq<char>,
    scope_tree: &ScopeNode,
    rules: Seq<Rule>,
    lex: &LexOutput,
    hits: Seq<Vec<Hit>>,
)
    requires
        all_hits_of(hits, source, scope_tree, rules, lex),
    ensures
        engine_spec::reported(
            source.spec_bytes(),
            path,
            rules,
            hits.map_values(|h: Vec<Hit>| hit_views(h@)),
        ) == engine_spec::scan_matches(source_view(source, lex), path, scope_tree@, rules),
{
    let src = source_view(source, lex);
    assert(hits.map_values(|h: Vec<Hit>| hit_views(h@)) =~= rules.map_values(
        |rule: Rule| engine_spec::rule_hits(src, scope_tree@, rule),
    ));
}

/// Scan a source against all rules and return every match.
///
/// Every match has to cover whole characters; [`try_scan_file`] tests that.
pub fn scan_file(
    source: &str,
    path: &str,
    scope_tree: &ScopeNode,
    rules: &[Rule],
    lex: &LexOutput,
) -> (r: Vec<ScanMatch>)
    requires
        lex.wf(),
        source.spec_bytes().len() < usize::MAX,
        forall|i: int|
            0 <= i < rules@.len() ==> engine_spec::hits_whole(
                source_view(source, lex),
                scope_tree@,
                #[trigger] rules@[i],
            ),
    ensures
        match_views(r@) == engine_spec::scan_matches(
            source_view(source, lex),
            path@,
            scope_tree@,
            rules@,
        ),
        forall|k: int|
            0 <= k < r@.len() ==> is_from(#[trigger] r@[k], rules@) && r@[k].file@ == path@,
{
    let hits = scan_all_hits(source, scope_tree, rules, lex);
    proof {
        assert forall|i: int| #![trigger hits@[i]] 0 <= i < hits@.len() implies bounded_hits(
            hits@[i]@,
            source,
        ) && forall|k: int|
            0 <= k < hits@[i]@.len() ==> engine_spec::is_whole(
                source.spec_bytes(),
                #[trigger] hit_views(hits@[i]@)[k],
            ) by {
            assert(engine_spec::hits_whole(source_view(source, lex), scope_tree@, rules@[i]));
        }
        lemma_reported(source, path@, scope_tree, rules@, lex, hits@);
    }
    report_hits(source, path, rules, &hits)
}

/// Scan a source against all rules and return every match, as [`scan_file`] does.
///
/// A pattern that matches bytes rather than characters can end a match in the middle of a
/// character.  There is no text to report then, and the result is `None`; so it is for a source
/// that leaves no room for the number of a line behind its last one.
pub fn try_scan_file(
    source: &str,
    path: &str,
    scope_tree: &ScopeNode,
    rules: &[Rule],
    lex: &LexOutput,
) -> (r: Option<Vec<ScanMatch>>)
    requires
        lex.wf(),
    ensures
        r is Some == (source.spec_bytes().len() < usize::MAX && forall|i: int|
            0 <= i < rules@.len() ==> engine_spec::hits_whole(
                source_view(source, lex),
                scope_tree@,
                #[trigger] rules@[i],
            )),
        r matches Some(matches) ==> match_views(matches@) == engine_spec::scan_matches(
            source_view(source, lex),
            path@,
            scope_tree@,
            rules@,
        ),
        r matches Some(matches) ==> forall|k: int|
            0 <= k < matches@.len() ==> is_from(#[trigger] matches@[k], rules@)
                && matches@[k].file@ == path@,
{
    let ghost src = source_view(source, lex);
    if source.as_bytes().len() == usize::MAX {
        return None;
    }
    let hits = scan_all_hits(source, scope_tree, rules, lex);
    let mut i: usize = 0;
    while i < hits.len()
        invariant
            src == source_view(source, lex),
            i <= hits@.len(),
            all_hits_of(hits@, source, scope_tree, rules@, lex),
            forall|k: int|
                #![trigger hits@[k]]
                #![trigger rules@[k]]
                0 <= k < i ==> engine_spec::hits_whole(src, scope_tree@, rules@[k]),
        decreases hits@.len() - i,
    {
        assert(hit_views(hits@[i as int]@) == engine_spec::rule_hits(
            src,
            scope_tree@,
            rules@[i as int],
        ));
        if !are_whole_hits(source, &hits[i]) {
            assert(!engine_spec::hits_whole(src, scope_tree@, rules@[i as int]));
            return None;
        }
        assert(engine_spec::hits_whole(src, scope_tree@, rules@[i as int]));
        i = i + 1;
    }
    proof {
        assert forall|i: int| #![trigger hits@[i]] 0 <= i < hits@.len() implies bounded_hits(
            hits@[i]@,
            source,
        ) && forall|k: int|
            0 <= k < hits@[i]@.len() ==> engine_spec::is_whole(
                source.spec_bytes(),
                #[trigger] hit_views(hits@[i]@)[k],
            ) by {
            assert(engine_spec::hits_whole(src, scope_tree@, rules@[i]));
        }
        lemma_reported(source, path@, scope_tree, rules@, lex, hits@);
    }
    Some(report_hits(source, path, rules, &hits))
}

} // verus!
