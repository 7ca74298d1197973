//! Byte ranges: membership, overlap with a body, and the code between comments and strings.

use crate::lexer;
use std::ops::Range;
use vstd::prelude::*;

verus! {

/// Position `p` lies in one of the ranges.
pub open spec fn covers(ranges: Seq<(int, int)>, p: int) -> bool {
    exists|k: int| 0 <= k < ranges.len() && (#[trigger] ranges[k]).0 <= p < ranges[k].1
}

/// The ranges are non-empty, sorted and do not overlap.
pub open spec fn disjoint_sorted(ranges: Seq<(int, int)>) -> bool {
    &&& forall|i: int| #![trigger ranges[i]] 0 <= i < ranges.len() ==> ranges[i].0 < ranges[i].1
    &&& forall|i: int, j: int|
        #![trigger ranges[i], ranges[j]]
        0 <= i < j < ranges.len() ==> ranges[i].1 <= ranges[j].0
}

/// Number of ranges that start at `pos` or before.
fn started_by(pos: usize, ranges: &[Range<usize>]) -> (r: usize)
    requires
        disjoint_sorted(lexer::range_views(ranges@)),
    ensures
        r <= ranges@.len(),
        forall|i: int| 0 <= i < r ==> (#[trigger] ranges@[i]).start <= pos,
        forall|i: int| r <= i < ranges@.len() ==> (#[trigger] ranges@[i]).start > pos,
{
    let ghost v = lexer::range_views(ranges@);
    let mut lo: usize = 0;
    let mut hi: usize = ranges.len();
    while lo < hi
        invariant
            v == lexer::range_views(ranges@),
            disjoint_sorted(v),
            lo <= hi <= ranges@.len(),
            forall|i: int| 0 <= i < lo ==> (#[trigger] ranges@[i]).start <= pos,
            forall|i: int| hi <= i < ranges@.len() ==> (#[trigger] ranges@[i]).start > pos,
        decreases hi - lo,
    {
        let mid: usize = lo + (hi - lo) / 2;
        let ghost m = mid as int;
        assert(v[m] == (ranges@[m].start as int, ranges@[m].end as int));
        if ranges[mid].start <= pos {
            assert forall|i: int| 0 <= i < mid + 1 implies (#[trigger] ranges@[i]).start <= pos by {
                assert(v[i] == (ranges@[i].start as int, ranges@[i].end as int));
            }
            lo = mid + 1;
        } else {
            assert forall|i: int| mid <= i < ranges@.len() implies (#[trigger] ranges@[i]).start
                > pos by {
                assert(v[i] == (ranges@[i].start as int, ranges@[i].end as int));
            }
            hi = mid;
        }
    }
    lo
}

/// Whether `pos` falls inside any of the ranges, which are sorted and do not overlap.
pub fn in_any_range(pos: usize, ranges: &[Range<usize>]) -> (r: bool)
    requires
        disjoint_sorted(lexer::range_views(ranges@)),
    ensures
        r == covers(lexer::range_views(ranges@), pos as int),
{
    let ghost v = lexer::range_views(ranges@);
    let n = started_by(pos, ranges);
    assert forall|i: int| 0 <= i < v.len() implies v[i] == (
        #[trigger] ranges@[i].start as int,
        ranges@[i].end as int,
    ) by {}
    if n == 0 {
        return false;
    }
    let r = pos < ranges[n - 1].end;
    if r {
        assert(v[n - 1].0 <= pos < v[n - 1].1);
    } else {
        assert forall|k: int| 0 <= k < v.len() implies !((#[trigger] v[k]).0 <= pos < v[k].1) by {
            assert(v[k] == (ranges@[k].start as int, ranges@[k].end as int));
            if k < n - 1 {
                assert(v[k].1 <= v[n - 1].0);
            }
        }
    }
    r
}

// ---------------------------------------------------------------------------
// Overlap
// ---------------------------------------------------------------------------

/// `r` starts before the end of `body` and ends behind its start.
pub open spec fn overlaps(r: (int, int), body: (int, int)) -> bool {
    r.1 > body.0 && r.0 < body.1
}

/// The part of `r` inside `body`.
pub open spec fn clip(r: (int, int), body: (int, int)) -> (int, int) {
    (
        if r.0 < body.0 {
            body.0
        } else {
            r.0
        },
        if r.1 > body.1 {
            body.1
        } else {
            r.1
        },
    )
}

/// The parts inside `body` of the ranges that overlap it, in order.
pub open spec fn clipped(ranges: Seq<(int, int)>, body: (int, int)) -> Seq<(int, int)>
    decreases ranges.len(),
{
    if ranges.len() == 0 {
        seq![]
    } else {
        let rest = clipped(ranges.drop_last(), body);
        if overlaps(ranges.last(), body) {
            rest.push(clip(ranges.last(), body))
        } else {
            rest
        }
    }
}

/// The parts inside `body` of the ranges that overlap it.
///
/// Ranges that end before the body are skipped by a binary search, and those behind it are not
/// visited.
pub fn ranges_overlapping(ranges: &[Range<usize>], body: &Range<usize>) -> (r: Vec<Range<usize>>)
    requires
        disjoint_sorted(lexer::range_views(ranges@)),
    ensures
        lexer::range_views(r@) == clipped(
            lexer::range_views(ranges@),
            (body.start as int, body.end as int),
        ),
{
    let ghost v = lexer::range_views(ranges@);
    let ghost b = (body.start as int, body.end as int);
    let mut i: usize = started_by(body.start, ranges);
    assert forall|k: int| 0 <= k < v.len() implies v[k] == (
        #[trigger] ranges@[k].start as int,
        ranges@[k].end as int,
    ) by {}
    if i > 0 && ranges[i - 1].end > body.start {
        i = i - 1;
    }
    let mut out: Vec<Range<usize>> = Vec::new();
    proof {
        assert forall|k: int| 0 <= k < i implies !overlaps(#[trigger] v[k], b) by {
            assert(v[k] == (ranges@[k].start as int, ranges@[k].end as int));
            if k < i - 1 {
                assert(v[k].1 <= v[i - 1].0);
                assert(v[i - 1] == (ranges@[i - 1].start as int, ranges@[i - 1].end as int));
            }
            if i < ranges@.len() {
                assert(v[k].1 <= v[i as int].0);
            }
        }
        lemma_clipped_none(v, b, i as int);
        assert(lexer::range_views(out@) =~= seq![]);
    }
    while i < ranges.len()
        invariant
            v == lexer::range_views(ranges@),
            b == (body.start as int, body.end as int),
            disjoint_sorted(v),
            i <= ranges@.len(),
            lexer::range_views(out@) == clipped(v.take(i as int), b),
            forall|k: int| i <= k < ranges@.len() ==> (#[trigger] ranges@[k]).end > body.start,
        decreases ranges@.len() - i,
    {
        let start = ranges[i].start;
        let end = ranges[i].end;
        assert(v[i as int] == (start as int, end as int));
        if start >= body.end {
            proof {
                assert forall|k: int| i <= k < v.len() implies !overlaps(#[trigger] v[k], b) by {
                    assert(v[k].0 >= v[i as int].0) by {
                        if k > i {
                            assert(v[i as int].1 <= v[k].0);
                        }
                    }
                }
                lemma_clipped_tail(v, b, i as int, v.len() as int);
                assert(v.take(v.len() as int) =~= v);
            }
            return out;
        }
        let ghost before = out@;
        let piece = Range {
            start: if start < body.start {
                body.start
            } else {
                start
            },
            end: if end > body.end {
                body.end
            } else {
                end
            },
        };
        out.push(piece);
        proof {
            assert(v.take(i + 1).drop_last() =~= v.take(i as int));
            assert(lexer::range_views(out@) =~= lexer::range_views(before).push(
                clip(v[i as int], b),
            ));
        }
        i = i + 1;
    }
    assert(v.take(i as int) =~= v);
    out
}

/// The parts lie inside the body.
pub proof fn lemma_clipped_within(v: Seq<(int, int)>, body: (int, int))
    requires
        disjoint_sorted(v),
    ensures
        forall|i: int|
            #![trigger clipped(v, body)[i]]
            0 <= i < clipped(v, body).len() ==> body.0 <= clipped(v, body)[i].0 && clipped(
                v,
                body,
            )[i].1 <= body.1 && (body.0 <= body.1 ==> clipped(v, body)[i].0 <= clipped(
                v,
                body,
            )[i].1),
    decreases v.len(),
{
    if v.len() > 0 {
        let init = v.drop_last();
        assert forall|i: int| 0 <= i < init.len() implies #[trigger] init[i] == v[i] by {}
        lemma_clipped_within(init, body);
        assert(v.last() == v[v.len() - 1]);
        let rest = clipped(init, body);
        let all = clipped(v, body);
        assert forall|i: int| #![trigger all[i]] 0 <= i < all.len() implies body.0 <= all[i].0
            && all[i].1 <= body.1 && (body.0 <= body.1 ==> all[i].0 <= all[i].1) by {
            if i < rest.len() {
                assert(all[i] == rest[i]);
            }
        }
    }
}

proof fn lemma_clipped_none(v: Seq<(int, int)>, b: (int, int), n: int)
    requires
        0 <= n <= v.len(),
        forall|k: int| 0 <= k < n ==> !overlaps(#[trigger] v[k], b),
    ensures
        clipped(v.take(n), b) == Seq::<(int, int)>::empty(),
    decreases n,
{
    if n > 0 {
        lemma_clipped_none(v, b, n - 1);
        assert(v.take(n).drop_last() =~= v.take(n - 1));
    }
}

proof fn lemma_clipped_tail(v: Seq<(int, int)>, b: (int, int), i: int, n: int)
    requires
        0 <= i <= n <= v.len(),
        forall|k: int| i <= k < n ==> !overlaps(#[trigger] v[k], b),
    ensures
        clipped(v.take(n), b) == clipped(v.take(i), b),
    decreases n - i,
{
    if i < n {
        lemma_clipped_tail(v, b, i, n - 1);
        assert(v.take(n).drop_last() =~= v.take(n - 1));
    }
}

// ---------------------------------------------------------------------------
// Code
// ---------------------------------------------------------------------------

/// Position `p` is neither in a comment nor in a string.
pub open spec fn is_code(comments: Seq<(int, int)>, strings: Seq<(int, int)>, p: int) -> bool {
    !covers(comments, p) && !covers(strings, p)
}

/// First position at or after `p` that is code, or `hi`.
pub open spec fn code_start(
    comments: Seq<(int, int)>,
    strings: Seq<(int, int)>,
    p: int,
    hi: int,
) -> int
    decreases hi - p,
{
    if p >= hi || is_code(comments, strings, p) {
        p
    } else {
        code_start(comments, strings, p + 1, hi)
    }
}

/// First position at or after `p` that is not code, or `hi`.
pub open spec fn code_end(
    comments: Seq<(int, int)>,
    strings: Seq<(int, int)>,
    p: int,
    hi: int,
) -> int
    decreases hi - p,
{
    if p >= hi || !is_code(comments, strings, p) {
        p
    } else {
        code_end(comments, strings, p + 1, hi)
    }
}

pub proof fn lemma_code_start(
    comments: Seq<(int, int)>,
    strings: Seq<(int, int)>,
    p: int,
    hi: int,
)
    requires
        p <= hi,
    ensures
        p <= code_start(comments, strings, p, hi) <= hi,
        code_start(comments, strings, p, hi) < hi ==> is_code(
            comments,
            strings,
            code_start(comments, strings, p, hi),
        ),
        forall|q: int|
            p <= q < code_start(comments, strings, p, hi) ==> !#[trigger] is_code(
                comments,
                strings,
                q,
            ),
    decreases hi - p,
{
    if p < hi && !is_code(comments, strings, p) {
        lemma_code_start(comments, strings, p + 1, hi);
    }
}

pub proof fn lemma_code_end(comments: Seq<(int, int)>, strings: Seq<(int, int)>, p: int, hi: int)
    requires
        p <= hi,
    ensures
        p <= code_end(comments, strings, p, hi) <= hi,
        code_end(comments, strings, p, hi) < hi ==> !is_code(
            comments,
            strings,
            code_end(comments, strings, p, hi),
        ),
        forall|q: int|
            p <= q < code_end(comments, strings, p, hi) ==> #[trigger] is_code(
                comments,
                strings,
                q,
            ),
    decreases hi - p,
{
    if p < hi && is_code(comments, strings, p) {
        lemma_code_end(comments, strings, p + 1, hi);
    }
}

/// The maximal runs of code from `p` to `hi`.
pub open spec fn code_runs(
    comments: Seq<(int, int)>,
    strings: Seq<(int, int)>,
    p: int,
    hi: int,
) -> Seq<(int, int)>
    decreases hi - p,
{
    let a = code_start(comments, strings, p, hi);
    if p >= hi || a >= hi {
        seq![]
    } else {
        proof {
            lemma_code_start(comments, strings, p, hi);
            lemma_code_end(comments, strings, a, hi);
            lemma_code_end(comments, strings, a + 1, hi);
        }
        let b = code_end(comments, strings, a, hi);
        seq![(a, b)] + code_runs(comments, strings, b, hi)
    }
}

proof fn lemma_code_start_skip(
    comments: Seq<(int, int)>,
    strings: Seq<(int, int)>,
    p: int,
    q: int,
    hi: int,
)
    requires
        p <= q <= hi,
        forall|k: int| p <= k < q ==> !#[trigger] is_code(comments, strings, k),
    ensures
        code_start(comments, strings, p, hi) == code_start(comments, strings, q, hi),
        code_runs(comments, strings, p, hi) == code_runs(comments, strings, q, hi),
    decreases q - p,
{
    if p < q {
        assert(!is_code(comments, strings, p));
        lemma_code_start_skip(comments, strings, p + 1, q, hi);
    }
}

proof fn lemma_code_end_is(
    comments: Seq<(int, int)>,
    strings: Seq<(int, int)>,
    p: int,
    q: int,
    hi: int,
)
    requires
        p <= q <= hi,
        forall|k: int| p <= k < q ==> #[trigger] is_code(comments, strings, k),
        q < hi ==> !is_code(comments, strings, q),
    ensures
        code_end(comments, strings, p, hi) == q,
    decreases q - p,
{
    if p < q {
        assert(is_code(comments, strings, p));
        lemma_code_end_is(comments, strings, p + 1, q, hi);
    }
}

/// End of the range around `pos`, or `pos` itself if no range holds it, and the start of the next
/// range behind that, or `limit`.
fn around(pos: usize, ranges: &[Range<usize>], limit: usize) -> (r: (usize, usize))
    requires
        disjoint_sorted(lexer::range_views(ranges@)),
        pos <= limit,
    ensures
        r.0 >= pos,
        (r.0 > pos) == covers(lexer::range_views(ranges@), pos as int),
        forall|q: int| pos <= q < r.0 ==> covers(lexer::range_views(ranges@), q),
        pos <= r.1 <= limit,
        r.0 == pos ==> forall|q: int|
            pos <= q < r.1 ==> !covers(lexer::range_views(ranges@), q),
        r.0 == pos && r.1 < limit ==> covers(lexer::range_views(ranges@), r.1 as int),
{
    let ghost v = lexer::range_views(ranges@);
    let n = started_by(pos, ranges);
    assert forall|k: int| 0 <= k < v.len() implies v[k] == (
        #[trigger] ranges@[k].start as int,
        ranges@[k].end as int,
    ) by {}
    let end = if n > 0 && ranges[n - 1].end > pos {
        ranges[n - 1].end
    } else {
        pos
    };
    let next = if n < ranges.len() && ranges[n].start < limit {
        ranges[n].start
    } else {
        limit
    };
    proof {
        if end > pos {
            assert(v[n - 1].0 <= pos < v[n - 1].1);
            assert forall|q: int| pos <= q < end implies covers(v, q) by {
                assert(v[n - 1].0 <= q < v[n - 1].1);
            }
        } else {
            assert forall|q: int| pos <= q < next implies !covers(v, q) by {
                if covers(v, q) {
                    let k = choose|k: int|
                        0 <= k < v.len() && (#[trigger] v[k]).0 <= q < v[k].1;
                    assert(v[k] == (ranges@[k].start as int, ranges@[k].end as int));
                    if k < n - 1 {
                        assert(v[k].1 <= v[n - 1].0);
                    }
                    if k > n {
                        assert(v[n as int].1 <= v[k].0);
                    }
                }
            }
            assert(!covers(v, pos as int)) by {
                if covers(v, pos as int) {
                    let k = choose|k: int|
                        0 <= k < v.len() && (#[trigger] v[k]).0 <= pos < v[k].1;
                    assert(v[k] == (ranges@[k].start as int, ranges@[k].end as int));
                    if k < n - 1 {
                        assert(v[k].1 <= v[n - 1].0);
                    }
                }
            }
            if next < limit {
                assert(v[n as int].0 <= next < v[n as int].1);
            }
        }
    }
    (end, next)
}

/// The byte ranges within `body` that hold neither comments nor string literals.
pub fn code_gaps(
    body: &Range<usize>,
    comment_ranges: &[Range<usize>],
    string_ranges: &[Range<usize>],
) -> (r: Vec<Range<usize>>)
    requires
        disjoint_sorted(lexer::range_views(comment_ranges@)),
        disjoint_sorted(lexer::range_views(string_ranges@)),
    ensures
        lexer::range_views(r@) == code_runs(
            lexer::range_views(comment_ranges@),
            lexer::range_views(string_ranges@),
            body.start as int,
            body.end as int,
        ),
{
    let ghost c = lexer::range_views(comment_ranges@);
    let ghost t = lexer::range_views(string_ranges@);
    let ghost hi = body.end as int;
    let mut gaps: Vec<Range<usize>> = Vec::new();
    let mut cursor: usize = body.start;
    assert(lexer::range_views(gaps@) =~= seq![]);
    assert(lexer::range_views(gaps@) + code_runs(c, t, cursor as int, hi) =~= code_runs(
        c,
        t,
        cursor as int,
        hi,
    ));
    while cursor < body.end
        invariant
            c == lexer::range_views(comment_ranges@),
            t == lexer::range_views(string_ranges@),
            hi == body.end,
            disjoint_sorted(c),
            disjoint_sorted(t),
            cursor <= body.end || cursor == body.start,
            code_runs(c, t, body.start as int, hi) == lexer::range_views(gaps@) + code_runs(
                c,
                t,
                cursor as int,
                hi,
            ),
        decreases body.end - cursor,
    {
        let (comment_end, next_comment) = around(cursor, comment_ranges, body.end);
        let (string_end, next_string) = around(cursor, string_ranges, body.end);
        if comment_end > cursor || string_end > cursor {
            let mut end: usize = if comment_end > string_end {
                comment_end
            } else {
                string_end
            };
            if end > body.end {
                end = body.end;
            }
            proof {
                lemma_code_start_skip(c, t, cursor as int, end as int, hi);
            }
            cursor = end;
        } else {
            let end = if next_comment < next_string {
                next_comment
            } else {
                next_string
            };
            let ghost before = gaps@;
            proof {
                assert(is_code(c, t, cursor as int));
                assert(end > cursor);
                lemma_code_end_is(c, t, cursor as int, end as int, hi);
            }
            gaps.push(Range { start: cursor, end });
            proof {
                let rest = code_runs(c, t, end as int, hi);
                let piece = (cursor as int, end as int);
                assert(lexer::range_views(gaps@) =~= lexer::range_views(before).push(piece));
                assert(lexer::range_views(before) + (seq![piece] + rest) =~= lexer::range_views(
                    gaps@,
                ) + rest);
            }
            cursor = end;
        }
    }
    assert(lexer::range_views(gaps@) + Seq::<(int, int)>::empty() =~= lexer::range_views(gaps@));
    gaps
}

proof fn lemma_code_runs(
    comments: Seq<(int, int)>,
    strings: Seq<(int, int)>,
    p: int,
    hi: int,
    q: int,
)
    requires
        p <= hi,
    ensures
        forall|i: int|
            #![trigger code_runs(comments, strings, p, hi)[i]]
            0 <= i < code_runs(comments, strings, p, hi).len() ==> p <= code_runs(
                comments,
                strings,
                p,
                hi,
            )[i].0 < code_runs(comments, strings, p, hi)[i].1 <= hi,
        forall|i: int, j: int|
            #![trigger code_runs(comments, strings, p, hi)[i], code_runs(comments, strings, p, hi)[j]]
            0 <= i < j < code_runs(comments, strings, p, hi).len() ==> code_runs(
                comments,
                strings,
                p,
                hi,
            )[i].1 < code_runs(comments, strings, p, hi)[j].0,
        p <= q < hi ==> covers(code_runs(comments, strings, p, hi), q) == is_code(
            comments,
            strings,
            q,
        ),
    decreases hi - p,
{
    let all = code_runs(comments, strings, p, hi);
    lemma_code_start(comments, strings, p, hi);
    let a = code_start(comments, strings, p, hi);
    if a < hi {
        lemma_code_end(comments, strings, a, hi);
        lemma_code_end(comments, strings, a + 1, hi);
        let b = code_end(comments, strings, a, hi);
        let rest = code_runs(comments, strings, b, hi);
        lemma_code_runs(comments, strings, b, hi, q);
        assert(all =~= seq![(a, b)] + rest);
        assert forall|i: int| #![trigger all[i]] 0 <= i < all.len() implies p <= all[i].0
            < all[i].1 <= hi by {
            if i > 0 {
                assert(all[i] == rest[i - 1]);
            }
        }
        // Two runs never touch: the first one ends where code ends.
        assert(rest.len() > 0 ==> rest[0].0 > b) by {
            if rest.len() > 0 {
                lemma_code_start(comments, strings, b, hi);
            }
        }
        assert forall|i: int, j: int| #![trigger all[i], all[j]] 0 <= i < j
            < all.len() implies all[i].1 < all[j].0 by {
            assert(all[j] == rest[j - 1]);
            if i > 0 {
                assert(all[i] == rest[i - 1]);
            } else if j > 1 {
                assert(rest[0].1 < rest[j - 1].0);
            }
        }
        if p <= q < hi {
            if a <= q < b {
                assert(all[0].0 <= q < all[0].1);
            } else if q >= b {
                if covers(rest, q) {
                    let k = choose|k: int|
                        0 <= k < rest.len() && (#[trigger] rest[k]).0 <= q < rest[k].1;
                    assert(all[k + 1].0 <= q < all[k + 1].1);
                }
                if covers(all, q) {
                    let k = choose|k: int|
                        0 <= k < all.len() && (#[trigger] all[k]).0 <= q < all[k].1;
                    assert(all[k] == rest[k - 1]);
                }
            } else {
                assert(!is_code(comments, strings, q));
                if covers(all, q) {
                    let k = choose|k: int|
                        0 <= k < all.len() && (#[trigger] all[k]).0 <= q < all[k].1;
                    if k > 0 {
                        assert(all[k] == rest[k - 1]);
                    }
                }
            }
        }
    } else if p <= q < hi {
        assert(!is_code(comments, strings, q));
    }
}

/// **Law.** The code gaps of a body are the complement of its comments and strings: a byte of the
/// body lies in a gap exactly when it lies in neither.
pub proof fn law_code_gaps_complement(
    comments: Seq<(int, int)>,
    strings: Seq<(int, int)>,
    body: (int, int),
    q: int,
)
    requires
        body.0 <= q < body.1,
    ensures
        covers(code_runs(comments, strings, body.0, body.1), q) == is_code(comments, strings, q),
{
    lemma_code_runs(comments, strings, body.0, body.1, q);
}

/// **Law.** The code gaps of a body are non-empty, lie inside it, come in order, and no two of
/// them touch.
pub proof fn law_code_gaps_maximal(
    comments: Seq<(int, int)>,
    strings: Seq<(int, int)>,
    body: (int, int),
)
    ensures
        forall|i: int|
            #![trigger code_runs(comments, strings, body.0, body.1)[i]]
            0 <= i < code_runs(comments, strings, body.0, body.1).len() ==> body.0 <= code_runs(
                comments,
                strings,
                body.0,
                body.1,
            )[i].0 < code_runs(comments, strings, body.0, body.1)[i].1 <= body.1,
        forall|i: int, j: int|
            #![trigger code_runs(comments, strings, body.0, body.1)[i], code_runs(comments, strings, body.0, body.1)[j]]
            0 <= i < j < code_runs(comments, strings, body.0, body.1).len() ==> code_runs(
                comments,
                strings,
                body.0,
                body.1,
            )[i].1 < code_runs(comments, strings, body.0, body.1)[j].0,
{
    if body.0 <= body.1 {
        lemma_code_runs(comments, strings, body.0, body.1, body.0);
    }
}

} // verus!
