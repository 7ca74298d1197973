//! Laws of the chain conditions of a rule: which part of the source each kind of entry searches, and
//! when an entry holds.

use crate::engine_spec;
use crate::engine_spec::{PlaceView, SourceView};
use crate::lines;
use crate::lines_laws;
use crate::pattern;
use crate::rules::{ChainRelationship, ChainedPattern};
use crate::scope::ScopeKind;
use crate::scope_spec::ScopeView;
use vstd::prelude::*;

verus! {

// ---------------------------------------------------------------------------
// Scopes
// ---------------------------------------------------------------------------

/// The scopes that a match stands in, outermost first; the last one is the current one.
pub open spec fn lineage(at: PlaceView) -> Seq<ScopeView> {
    at.ancestors.push(at.node)
}

/// The kinds of scope that an entry asks for.
pub open spec fn asks_for(rel: ChainRelationship, kind: ScopeKind) -> bool {
    match rel {
        ChainRelationship::AnywhereInMethod => kind == ScopeKind::Function,
        ChainRelationship::AnywhereInClass => kind == ScopeKind::Class || kind
            == ScopeKind::Struct,
        ChainRelationship::AnywhereInNamespace => kind == ScopeKind::Namespace,
        _ => false,
    }
}

/// The scope at `i` is the innermost one of a kind that the entry asks for.
pub open spec fn is_innermost(line: Seq<ScopeView>, rel: ChainRelationship, i: int) -> bool {
    &&& 0 <= i < line.len()
    &&& asks_for(rel, line[i].kind)
    &&& forall|j: int| i < j < line.len() ==> !asks_for(rel, (#[trigger] line[j]).kind)
}

/// None of the scopes is of a kind that the entry asks for.
pub open spec fn is_missing(line: Seq<ScopeView>, rel: ChainRelationship) -> bool {
    forall|j: int| 0 <= j < line.len() ==> !asks_for(rel, (#[trigger] line[j]).kind)
}

/// What lies inside a scope: all of it in a file, and what is behind the brace elsewhere.
pub open spec fn inside(node: ScopeView) -> (int, int) {
    (
        if node.kind == ScopeKind::File {
            node.body_start
        } else {
            node.body_start + 1
        },
        node.body_end,
    )
}

proof fn lemma_nearest(
    ancestors: Seq<ScopeView>,
    current: ScopeView,
    kinds: Seq<ScopeKind>,
    rel: ChainRelationship,
)
    requires
        forall|k: ScopeKind| kinds.contains(k) == #[trigger] asks_for(rel, k),
    ensures
        forall|i: int| #[trigger]
            is_innermost(ancestors.push(current), rel, i) ==> engine_spec::nearest(
                ancestors,
                current,
                kinds,
            ) == Some(ancestors.push(current)[i]),
        is_missing(ancestors.push(current), rel) == (engine_spec::nearest(
            ancestors,
            current,
            kinds,
        ) is None),
    decreases ancestors.len(),
{
    let line = ancestors.push(current);
    let last = line.len() - 1;
    assert(line[last] == current);
    assert(asks_for(rel, current.kind) == kinds.contains(current.kind));
    if kinds.contains(current.kind) {
        assert forall|i: int| #[trigger] is_innermost(line, rel, i) implies line[i] == current by {
            if i < last {
                assert(!asks_for(rel, line[last].kind));
            }
        }
        assert(!is_missing(line, rel)) by {
            assert(asks_for(rel, line[last].kind));
        }
    } else if ancestors.len() == 0 {
        assert forall|i: int| #[trigger] is_innermost(line, rel, i) implies false by {
            assert(line[i] == current);
        }
        assert(is_missing(line, rel));
    } else {
        let before = ancestors.drop_last();
        lemma_nearest(before, ancestors.last(), kinds, rel);
        assert(before.push(ancestors.last()) =~= ancestors);
        assert forall|i: int| #[trigger] is_innermost(line, rel, i) implies engine_spec::nearest(
            ancestors,
            current,
            kinds,
        ) == Some(line[i]) by {
            assert(i != last);
            assert forall|j: int| i < j < ancestors.len() implies !asks_for(
                rel,
                (#[trigger] ancestors[j]).kind,
            ) by {
                assert(line[j] == ancestors[j]);
            }
            assert(is_innermost(ancestors, rel, i));
        }
        if is_missing(ancestors, rel) {
            assert forall|j: int| 0 <= j < line.len() implies !asks_for(
                rel,
                (#[trigger] line[j]).kind,
            ) by {
                if j < last {
                    assert(line[j] == ancestors[j]);
                }
            }
        } else {
            let j = choose|j: int|
                0 <= j < ancestors.len() && asks_for(rel, (#[trigger] ancestors[j]).kind);
            assert(asks_for(rel, line[j].kind));
        }
    }
}

/// **Law.** An `anywhere_in_class` entry searches the body of the innermost class or struct that the match
/// stands in.
pub proof fn law_anywhere_in_class(src: SourceView, at: PlaceView, i: int)
    requires
        0 <= i < lineage(at).len(),
        lineage(at)[i].kind == ScopeKind::Class || lineage(at)[i].kind == ScopeKind::Struct,
        forall|j: int|
            i < j < lineage(at).len() ==> (#[trigger] lineage(at)[j]).kind != ScopeKind::Class
                && lineage(at)[j].kind != ScopeKind::Struct,
    ensures
        engine_spec::chain_scope(src, at, ChainRelationship::AnywhereInClass) == Some(inside(lineage(at)[i])),
{
    let rel = ChainRelationship::AnywhereInClass;
    let kinds = seq![ScopeKind::Class, ScopeKind::Struct];
    assert(kinds[0] == ScopeKind::Class && kinds[1] == ScopeKind::Struct);
    lemma_nearest(at.ancestors, at.node, kinds, rel);
    let line = lineage(at);
    assert(is_innermost(line, rel, i));
}

/// **Law.** An `anywhere_in_class` entry misses its scope exactly when the match stands in neither a class nor a struct.
pub proof fn law_class_missing(src: SourceView, at: PlaceView)
    ensures
        engine_spec::chain_scope(src, at, ChainRelationship::AnywhereInClass) is None == (forall|j: int|
            0 <= j < lineage(at).len() ==> (#[trigger] lineage(at)[j]).kind != ScopeKind::Class
                && lineage(at)[j].kind != ScopeKind::Struct),
{
    let rel = ChainRelationship::AnywhereInClass;
    let kinds = seq![ScopeKind::Class, ScopeKind::Struct];
    assert(kinds[0] == ScopeKind::Class && kinds[1] == ScopeKind::Struct);
    lemma_nearest(at.ancestors, at.node, kinds, rel);
    let line = lineage(at);
    assert(is_missing(line, rel) == (forall|j: int|
        0 <= j < line.len() ==> (#[trigger] line[j]).kind != ScopeKind::Class && line[j].kind != ScopeKind::Struct));
}

/// **Law.** An `anywhere_in_namespace` entry searches the body of the innermost namespace that the match
/// stands in.
pub proof fn law_anywhere_in_namespace(src: SourceView, at: PlaceView, i: int)
    requires
        0 <= i < lineage(at).len(),
        lineage(at)[i].kind == ScopeKind::Namespace,
        forall|j: int|
            i < j < lineage(at).len() ==> (#[trigger] lineage(at)[j]).kind != ScopeKind::Namespace,
    ensures
        engine_spec::chain_scope(src, at, ChainRelationship::AnywhereInNamespace) == Some(inside(lineage(at)[i])),
{
    let rel = ChainRelationship::AnywhereInNamespace;
    let kinds = seq![ScopeKind::Namespace];
    assert(kinds[0] == ScopeKind::Namespace);
    lemma_nearest(at.ancestors, at.node, kinds, rel);
    let line = lineage(at);
    assert(is_innermost(line, rel, i));
}

/// **Law.** An `anywhere_in_namespace` entry misses its scope exactly when the match stands in no namespace.
pub proof fn law_namespace_missing(src: SourceView, at: PlaceView)
    ensures
        engine_spec::chain_scope(src, at, ChainRelationship::AnywhereInNamespace) is None == (forall|j: int|
            0 <= j < lineage(at).len() ==> (#[trigger] lineage(at)[j]).kind != ScopeKind::Namespace),
{
    let rel = ChainRelationship::AnywhereInNamespace;
    let kinds = seq![ScopeKind::Namespace];
    assert(kinds[0] == ScopeKind::Namespace);
    lemma_nearest(at.ancestors, at.node, kinds, rel);
    let line = lineage(at);
    assert(is_missing(line, rel) == (forall|j: int|
        0 <= j < line.len() ==> (#[trigger] line[j]).kind != ScopeKind::Namespace));
}

/// **Law.** An `anywhere_in_method` entry searches the body of the innermost function that the match
/// stands in.
pub proof fn law_anywhere_in_method(src: SourceView, at: PlaceView, i: int)
    requires
        0 <= i < lineage(at).len(),
        lineage(at)[i].kind == ScopeKind::Function,
        forall|j: int|
            i < j < lineage(at).len() ==> (#[trigger] lineage(at)[j]).kind != ScopeKind::Function,
    ensures
        engine_spec::chain_scope(src, at, ChainRelationship::AnywhereInMethod) == Some(inside(lineage(at)[i])),
{
    let rel = ChainRelationship::AnywhereInMethod;
    let kinds = seq![ScopeKind::Function];
    assert(kinds[0] == ScopeKind::Function);
    lemma_nearest(at.ancestors, at.node, kinds, rel);
    let line = lineage(at);
    assert(is_innermost(line, rel, i));
}

/// **Law.** Where the match stands in no function, an `anywhere_in_method` entry searches the body in which the
/// match was found.
pub proof fn law_method_missing(src: SourceView, at: PlaceView)
    requires
        forall|j: int| 0 <= j < lineage(at).len() ==> (#[trigger] lineage(at)[j]).kind != ScopeKind::Function,
    ensures
        engine_spec::chain_scope(src, at, ChainRelationship::AnywhereInMethod) == Some(at.body),
{
    let rel = ChainRelationship::AnywhereInMethod;
    let kinds = seq![ScopeKind::Function];
    assert(kinds[0] == ScopeKind::Function);
    lemma_nearest(at.ancestors, at.node, kinds, rel);
    let line = lineage(at);
    assert(is_missing(line, rel));
}

/// **Law.** An `after` entry searches from the end of the match to the end of the body, a `before`
/// entry from the start of the body to the start of the match.
pub proof fn law_after_and_before(src: SourceView, at: PlaceView)
    ensures
        engine_spec::chain_scope(src, at, ChainRelationship::After) == Some((at.to, at.body.1)),
        engine_spec::chain_scope(src, at, ChainRelationship::Before) == Some((at.body.0, at.from)),
{
}

// ---------------------------------------------------------------------------
// Statements
// ---------------------------------------------------------------------------

/// The byte at `q` is a `;`, `{` or `}` that lies in no comment and no string.
pub open spec fn divides(src: SourceView, q: int) -> bool {
    &&& src.bytes[q] == 59u8 || src.bytes[q] == 123u8 || src.bytes[q] == 125u8
    &&& forall|i: int|
        0 <= i < src.comments.len() ==> !((#[trigger] src.comments[i]).0 <= q < src.comments[i].1)
    &&& forall|i: int|
        0 <= i < src.strings.len() ==> !((#[trigger] src.strings[i]).0 <= q < src.strings[i].1)
}

proof fn lemma_divides(src: SourceView, q: int)
    ensures
        lines::ends_statement(src.bytes, src.comments, src.strings, q) == divides(src, q),
{
}

/// **Law.** An `anywhere_in_statement` entry searches the statement around the match: from behind the
/// last divider before it, or from the start of the body, to the next divider behind it, which it takes
/// in, or to the end of the body.
pub proof fn law_anywhere_in_statement(src: SourceView, at: PlaceView)
    requires
        at.body.0 <= at.from,
        at.to <= at.body.1,
    ensures
        engine_spec::chain_scope(src, at, ChainRelationship::AnywhereInStatement) matches Some(b)
            && {
            &&& at.body.0 <= b.0 <= at.from
            &&& b.0 == at.body.0 || divides(src, b.0 - 1)
            &&& forall|q: int| b.0 <= q < at.from ==> !#[trigger] divides(src, q)
            &&& at.to <= b.1 <= at.body.1
            &&& b.1 == at.body.1 || (b.1 > at.to && divides(src, b.1 - 1))
            &&& forall|q: int| at.to <= q < b.1 - 1 ==> !#[trigger] divides(src, q)
        },
{
    let b = engine_spec::chain_scope(src, at, ChainRelationship::AnywhereInStatement)->0;
    lemma_statement_start(src, at.from, at.body.0);
    lemma_statement_end(src, at.to, at.body.1);
}

proof fn lemma_statement_start(src: SourceView, p: int, lo: int)
    requires
        lo <= p,
    ensures
        ({
            let r = lines::statement_start(src.bytes, src.comments, src.strings, p, lo);
            &&& lo <= r <= p
            &&& r == lo || divides(src, r - 1)
            &&& forall|q: int| r <= q < p ==> !#[trigger] divides(src, q)
        }),
    decreases p - lo,
{
    if p > lo {
        lemma_divides(src, p - 1);
        if !divides(src, p - 1) {
            lemma_statement_start(src, p - 1, lo);
        }
    }
}

proof fn lemma_statement_end(src: SourceView, p: int, hi: int)
    requires
        p <= hi,
    ensures
        ({
            let r = lines::statement_end(src.bytes, src.comments, src.strings, p, hi);
            &&& p <= r <= hi
            &&& r == hi || (r > p && divides(src, r - 1))
            &&& forall|q: int| p <= q < r - 1 ==> !#[trigger] divides(src, q)
        }),
    decreases hi - p,
{
    if p < hi {
        lemma_divides(src, p);
        if !divides(src, p) {
            lemma_statement_end(src, p + 1, hi);
        }
    }
}

// ---------------------------------------------------------------------------
// Lines
// ---------------------------------------------------------------------------

/// `q` is where a window of `n` lines from `p` on ends: behind the `n`-th newline, or at the limit if
/// there are fewer or `n` is 0.
pub open spec fn ends_window(s: Seq<u8>, p: int, n: int, limit: int, q: int) -> bool {
    if n > 0 && lines_laws::newlines_in(s, p, limit) >= n {
        p < q <= limit && s[q - 1] == 10u8 && lines_laws::newlines_in(s, p, q) == n
    } else {
        q == limit
    }
}

/// `q` is where a window of `n` lines before the line of `p` starts: at the start of a line with `n`
/// newlines between it and `p`, or at the floor if there are fewer.
pub open spec fn starts_window(s: Seq<u8>, p: int, n: int, floor: int, q: int) -> bool {
    if lines_laws::newlines_in(s, floor, p) > n {
        floor < q <= p && s[q - 1] == 10u8 && lines_laws::newlines_in(s, q, p) == n
    } else {
        q == floor
    }
}

proof fn lemma_ends_window(s: Seq<u8>, p: int, n: int, limit: int)
    requires
        p <= limit,
        n >= 0,
    ensures
        ends_window(s, p, n, limit, lines::lines_after(s, p, n, limit)),
        n <= 0 ==> lines::lines_after(s, p, n, limit) == limit,
    decreases limit - p,
{
    if n == 0 {
        lemma_no_window(s, p, 0, limit);
    } else if p < limit {
        lines_laws::lemma_newlines_split(s, p, p + 1, limit);
        reveal_with_fuel(lines_laws::newlines_in, 2);
        if s[p] == 10u8 {
            if n > 1 {
                lemma_ends_window(s, p + 1, n - 1, limit);
                let q = lines::lines_after(s, p + 1, n - 1, limit);
                if lines_laws::newlines_in(s, p + 1, limit) >= n - 1 {
                    lines_laws::lemma_newlines_split(s, p, p + 1, q);
                }
            } else {
                lines_laws::lemma_newlines_split(s, p + 1, p + 1, limit);
            }
        } else {
            lemma_ends_window(s, p + 1, n, limit);
            let q = lines::lines_after(s, p + 1, n, limit);
            if lines_laws::newlines_in(s, p + 1, limit) >= n {
                lines_laws::lemma_newlines_split(s, p, p + 1, q);
            }
        }
    }
}

proof fn lemma_no_window(s: Seq<u8>, p: int, n: int, limit: int)
    requires
        p <= limit,
        n <= 0,
    ensures
        lines::lines_after(s, p, n, limit) == limit,
    decreases limit - p,
{
    if p < limit {
        if s[p] == 10u8 {
            lemma_no_window(s, p + 1, n - 1, limit);
        } else {
            lemma_no_window(s, p + 1, n, limit);
        }
    }
}

proof fn lemma_starts_window(s: Seq<u8>, p: int, n: int, floor: int)
    requires
        floor <= p,
        n >= 0,
    ensures
        starts_window(s, p, n, floor, lines::lines_before(s, p, n, floor)),
    decreases p - floor,
{
    if p > floor {
        lines_laws::lemma_newlines_split(s, floor, p - 1, p);
        reveal_with_fuel(lines_laws::newlines_in, 2);
        if s[p - 1] == 10u8 {
            if n > 0 {
                lemma_starts_window(s, p - 1, n - 1, floor);
            }
        } else {
            lemma_starts_window(s, p - 1, n, floor);
        }
    }
}

/// **Law.** A `within_lines` of `n` narrows what an entry searches to a window around the match, from
/// the start of the `n`-th line before that of the match to the `n`-th newline behind it, both cut off at
/// the body.  Without it nothing is narrowed.
pub proof fn law_within_lines(src: SourceView, at: PlaceView, bounds: (int, int), n: usize) -> (w: (
    int,
    int,
))
    requires
        at.body.0 <= at.from,
        at.to <= at.body.1,
    ensures
        starts_window(src.bytes, at.from, n as int, at.body.0, w.0),
        ends_window(src.bytes, at.to, n as int, at.body.1, w.1),
        engine_spec::within_lines(src, at, bounds, Some(n)) == (
            if bounds.0 < w.0 {
                w.0
            } else {
                bounds.0
            },
            if w.1 < bounds.1 {
                w.1
            } else {
                bounds.1
            },
        ),
        engine_spec::within_lines(src, at, bounds, None) == bounds,
{
    lemma_starts_window(src.bytes, at.from, n as int, at.body.0);
    lemma_ends_window(src.bytes, at.to, n as int, at.body.1);
    (
        lines::lines_before(src.bytes, at.from, n as int, at.body.0),
        lines::lines_after(src.bytes, at.to, n as int, at.body.1),
    )
}

// ---------------------------------------------------------------------------
// Entries
// ---------------------------------------------------------------------------

/// **Law.** An entry whose scope is missing does not hold, negated or not.  Any other holds if its
/// pattern is found between its narrowed bounds and it is not negated, or if it is negated and the pattern
/// is not found there; bounds that hold no bytes of the source hold no pattern either.
pub proof fn law_entry_holds(src: SourceView, at: PlaceView, entry: ChainedPattern)
    ensures
        match engine_spec::chain_scope(src, at, entry.relationship) {
            None => !engine_spec::entry_holds(src, at, entry) && engine_spec::chain_bounds(
                src,
                at,
                entry,
            ) is None,
            Some(bounds) => {
                let w = engine_spec::within_lines(src, at, bounds, entry.within_lines);
                &&& engine_spec::chain_bounds(src, at, entry) == Some(
                    if w.0 < w.1 && w.1 <= src.bytes.len() {
                        w
                    } else {
                        (0, 0)
                    },
                )
                &&& if w.0 < w.1 && w.1 <= src.bytes.len() && pattern::matched_spans(
                    entry.matcher,
                    src.bytes.subrange(w.0, w.1),
                ).len() > 0 {
                    engine_spec::entry_holds(src, at, entry) == !entry.negate
                } else {
                    engine_spec::entry_holds(src, at, entry) == entry.negate
                }
            },
        },
{
}

/// **Law.** A chain holds unless one of its entries does not.
pub proof fn law_chain_holds(src: SourceView, at: PlaceView, chain: Seq<ChainedPattern>)
    ensures
        engine_spec::chain_holds(src, at, chain) == !exists|i: int|
            0 <= i < chain.len() && !engine_spec::entry_holds(src, at, #[trigger] chain[i]),
{
}

} // verus!
