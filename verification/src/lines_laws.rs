//! Laws of positions, windows, statements and snippets.

use crate::lex_spec;
use crate::lines;
use crate::text;
use vstd::prelude::*;

verus! {

/// **Law.** Lines that are not long are shown whole, without the white space around them.
pub proof fn law_short_snippet(s: Seq<u8>, from: int, to: int)
    requires
        vstd::utf8::encode_utf8(text::trimmed(lines::spanned_lines(s, from, to))).len() <= 2048,
    ensures
        lines::snippet_of(s, from, to) == text::trimmed(lines::spanned_lines(s, from, to)),
{
}

// ---------------------------------------------------------------------------
// Size
// ---------------------------------------------------------------------------

/// There is a character boundary at most three bytes before `i`.
proof fn lemma_boundary_near_before(s: Seq<u8>, i: int) -> (j: int)
    requires
        vstd::utf8::valid_utf8(s),
        0 <= i <= s.len(),
    ensures
        i - 3 <= j <= i,
        0 <= j,
        vstd::utf8::is_char_boundary(s, j),
    decreases s.len(),
{
    if i == 0 {
        0
    } else {
        let n = vstd::utf8::length_of_first_scalar(s);
        if i < n {
            0
        } else {
            let rest = vstd::utf8::pop_first_scalar(s);
            let j = lemma_boundary_near_before(rest, i - n);
            assert(vstd::utf8::is_char_boundary(s, j + n));
            j + n
        }
    }
}

/// There is a character boundary at most three bytes after `i`.
proof fn lemma_boundary_near_after(s: Seq<u8>, i: int) -> (j: int)
    requires
        vstd::utf8::valid_utf8(s),
        0 <= i <= s.len(),
    ensures
        i <= j <= i + 3,
        j <= s.len(),
        vstd::utf8::is_char_boundary(s, j),
    decreases s.len(),
{
    if i == 0 {
        0
    } else {
        let n = vstd::utf8::length_of_first_scalar(s);
        let rest = vstd::utf8::pop_first_scalar(s);
        if i < n {
            reveal_with_fuel(vstd::utf8::is_char_boundary, 2);
            n
        } else {
            let j = lemma_boundary_near_after(rest, i - n);
            assert(vstd::utf8::is_char_boundary(s, j + n));
            j + n
        }
    }
}

proof fn lemma_boundary_before_from(s: Seq<u8>, i: int, j: int)
    requires
        0 <= j <= i,
        vstd::utf8::is_char_boundary(s, j),
    ensures
        j <= lines::boundary_before(s, i) <= i,
    decreases i,
{
    if i > j && !vstd::utf8::is_char_boundary(s, i) {
        lemma_boundary_before_from(s, i - 1, j);
    }
}

proof fn lemma_boundary_after_to(s: Seq<u8>, i: int, j: int)
    requires
        i <= j <= s.len(),
        vstd::utf8::is_char_boundary(s, j),
    ensures
        i <= lines::boundary_after(s, i) <= j,
    decreases j - i,
{
    if i < j && !vstd::utf8::is_char_boundary(s, i) {
        lemma_boundary_after_to(s, i + 1, j);
    }
}

/// Where a window is cut.
proof fn lemma_window_bounds(raw: Seq<char>, from: int, to: int)
    requires
        0 <= from,
        0 <= to <= vstd::utf8::encode_utf8(raw).len(),
        from <= to || to == vstd::utf8::encode_utf8(raw).len(),
    ensures
        ({
            let bytes = vstd::utf8::encode_utf8(raw);
            let a = lines::boundary_before(
                bytes,
                vstd::math::max(from - lines::CONTEXT_BYTES, 0),
            );
            let b = lines::boundary_after(
                bytes,
                vstd::math::min(to + lines::CONTEXT_BYTES, bytes.len() as int),
            );
            &&& 0 <= a <= from
            &&& to <= b <= bytes.len()
            &&& a <= b
            &&& b - a <= vstd::math::max(to - from, 0) + 2 * lines::CONTEXT_BYTES + 6
            &&& vstd::utf8::valid_utf8(bytes)
            &&& vstd::utf8::is_char_boundary(bytes, a)
            &&& vstd::utf8::is_char_boundary(bytes, b)
        }),
{
    let bytes = vstd::utf8::encode_utf8(raw);
    let n = bytes.len() as int;
    vstd::utf8::encode_utf8_valid_utf8(raw);
    let i = vstd::math::max(from - lines::CONTEXT_BYTES, 0);
    let k = vstd::math::min(to + lines::CONTEXT_BYTES, n);
    lines::lemma_boundary_before(bytes, i);
    lines::lemma_boundary_after(bytes, k);
    if i <= n {
        let j = lemma_boundary_near_before(bytes, i);
        lemma_boundary_before_from(bytes, i, j);
    } else {
        let j = lemma_boundary_near_before(bytes, n);
        lemma_boundary_before_from(bytes, i, j);
        vstd::utf8::is_char_boundary_start_end_of_seq(bytes);
        lemma_boundary_before_from(bytes, i, n);
    }
    let j = lemma_boundary_near_after(bytes, k);
    lemma_boundary_after_to(bytes, k, j);
}

proof fn lemma_slice_size(bytes: Seq<u8>, a: int, b: int)
    requires
        vstd::utf8::valid_utf8(bytes),
        0 <= a <= b <= bytes.len(),
        vstd::utf8::is_char_boundary(bytes, a),
        vstd::utf8::is_char_boundary(bytes, b),
    ensures
        vstd::utf8::encode_utf8(vstd::utf8::decode_utf8(bytes.subrange(a, b))).len() == b - a,
{
    text::lemma_boundary_prefix(bytes, a, b);
    vstd::utf8::decode_utf8_encode_utf8(bytes.subrange(a, b));
}

proof fn lemma_ellipsis_size()
    ensures
        vstd::utf8::encode_utf8("\u{2026}"@).len() == 3,
        vstd::utf8::encode_utf8(Seq::<char>::empty()).len() == 0,
{
    reveal_strlit("\u{2026}");
    reveal_with_fuel(vstd::utf8::encode_utf8, 2);
    assert("\u{2026}"@ =~= seq!['\u{2026}']);
    assert(vstd::utf8::encode_scalar('\u{2026}' as u32).len() == 3);
}

/// **Law.** A snippet takes at most 2 KB, or 252 bytes more than the match it shows.
pub proof fn law_snippet_bounded(s: Seq<u8>, from: int, to: int)
    requires
        0 <= from <= to <= s.len(),
    ensures
        vstd::utf8::encode_utf8(lines::snippet_of(s, from, to)).len() <= 2048
            || vstd::utf8::encode_utf8(lines::snippet_of(s, from, to)).len() <= (to - from) + 252,
{
    let shown = lines::spanned_lines(s, from, to);
    let raw = text::trimmed(shown);
    let bytes = vstd::utf8::encode_utf8(raw);
    if bytes.len() > lines::MAX_SNIPPET_BYTES {
        let indent = vstd::utf8::encode_utf8(shown).len() - vstd::utf8::encode_utf8(
            text::trimmed_start(shown),
        ).len();
        let origin = lines::line_start(s, from) + indent;
        let a0 = vstd::math::max(from - origin, 0);
        let b0 = vstd::math::min(vstd::math::max(to - origin, 0), bytes.len() as int);
        lemma_window_bounds(raw, a0, b0);
        let a = lines::boundary_before(bytes, vstd::math::max(a0 - lines::CONTEXT_BYTES, 0));
        let b = lines::boundary_after(
            bytes,
            vstd::math::min(b0 + lines::CONTEXT_BYTES, bytes.len() as int),
        );
        lemma_slice_size(bytes, a, b);
        lemma_ellipsis_size();
        let head = if a > 0 {
            "\u{2026}"@
        } else {
            seq![]
        };
        let tail = if b < bytes.len() {
            "\u{2026}"@
        } else {
            seq![]
        };
        let middle = vstd::utf8::decode_utf8(bytes.subrange(a, b));
        text::lemma_encode_concat(head + middle, tail);
        text::lemma_encode_concat(head, middle);
    }
}

// ---------------------------------------------------------------------------
// Content
// ---------------------------------------------------------------------------

/// The text between two boundaries splits at a boundary in between.
proof fn lemma_decode_split(bytes: Seq<u8>, a: int, m: int, b: int)
    requires
        vstd::utf8::valid_utf8(bytes),
        0 <= a <= m <= b <= bytes.len(),
        vstd::utf8::is_char_boundary(bytes, a),
        vstd::utf8::is_char_boundary(bytes, m),
        vstd::utf8::is_char_boundary(bytes, b),
    ensures
        vstd::utf8::decode_utf8(bytes.subrange(a, b)) == vstd::utf8::decode_utf8(
            bytes.subrange(a, m),
        ) + vstd::utf8::decode_utf8(bytes.subrange(m, b)),
{
    let left = bytes.subrange(a, m);
    let right = bytes.subrange(m, b);
    text::lemma_boundary_prefix(bytes, a, m);
    text::lemma_boundary_prefix(bytes, m, b);
    vstd::utf8::decode_utf8_encode_utf8(left);
    vstd::utf8::decode_utf8_encode_utf8(right);
    let x = vstd::utf8::decode_utf8(left);
    let y = vstd::utf8::decode_utf8(right);
    text::lemma_encode_concat(x, y);
    assert(bytes.subrange(a, b) =~= left + right);
    vstd::utf8::encode_utf8_decode_utf8(x + y);
}

/// The end of an encoded prefix is a character boundary.
proof fn lemma_prefix_boundary(a: Seq<char>, b: Seq<char>)
    ensures
        vstd::utf8::is_char_boundary(
            vstd::utf8::encode_utf8(a + b),
            vstd::utf8::encode_utf8(a).len() as int,
        ),
    decreases a.len(),
{
    let bytes = vstd::utf8::encode_utf8(a + b);
    vstd::utf8::encode_utf8_valid_utf8(a + b);
    if a.len() > 0 {
        let rest = a.drop_first();
        lemma_prefix_boundary(rest, b);
        text::lemma_encode_concat(a, b);
        assert((a + b).drop_first() =~= rest + b);
        vstd::utf8::encode_utf8_first_scalar(a + b);
        let n = vstd::utf8::encode_scalar(a[0] as u32).len() as int;
        assert(vstd::utf8::pop_first_scalar(bytes) =~= vstd::utf8::encode_utf8(rest + b));
        assert(vstd::utf8::encode_utf8(a).len() == n + vstd::utf8::encode_utf8(rest).len());
    }
}

/// **Law.** A snippet shows the match: where the match starts and ends with something other than
/// white space, its text stands in the snippet whole.
pub proof fn law_snippet_shows_match(s: Seq<u8>, from: int, to: int)
    requires
        vstd::utf8::valid_utf8(s),
        0 <= from < to <= s.len(),
        vstd::utf8::is_char_boundary(s, from),
        vstd::utf8::is_char_boundary(s, to),
        !text::is_white(vstd::utf8::decode_utf8(s.subrange(from, to)).first()),
        !text::is_white(vstd::utf8::decode_utf8(s.subrange(from, to)).last()),
    ensures
        exists|before: Seq<char>, after: Seq<char>|
            lines::snippet_of(s, from, to) == #[trigger] (before + vstd::utf8::decode_utf8(
                s.subrange(from, to),
            ) + after),
{
    let start = lines::line_start(s, from);
    let end = lines::line_end(s, to);
    lines::lemma_line_bounds(s, from, to);
    let x = vstd::utf8::decode_utf8(s.subrange(start, from));
    let m = vstd::utf8::decode_utf8(s.subrange(from, to));
    let y = vstd::utf8::decode_utf8(s.subrange(to, end));
    let shown = lines::spanned_lines(s, from, to);
    lemma_decode_split(s, start, from, end);
    lemma_decode_split(s, from, to, end);
    assert(shown =~= x + (m + y));
    assert(m.len() > 0) by {
        text::lemma_boundary_prefix(s, from, to);
        vstd::utf8::decode_utf8_encode_utf8(s.subrange(from, to));
        if m.len() == 0 {
            assert(vstd::utf8::encode_utf8(m).len() == 0);
        }
    }
    let x1 = text::trimmed_start(x);
    let y1 = text::trimmed_end(y);
    text::lemma_trimmed_start_keeps(x, m + y);
    assert(x1 + (m + y) =~= (x1 + m) + y);
    text::lemma_trimmed_end_keeps(x1 + m, y);
    let raw = text::trimmed(shown);
    assert(raw == x1 + m + y1);
    let bytes = vstd::utf8::encode_utf8(raw);
    if bytes.len() <= lines::MAX_SNIPPET_BYTES {
        assert(lines::snippet_of(s, from, to) == x1 + m + y1);
    } else {
        text::lemma_encode_concat(x, m + y);
        text::lemma_encode_concat(x1, m + y);
        text::lemma_encode_concat(x1 + m, y1);
        text::lemma_encode_concat(x1, m);
        text::lemma_boundary_prefix(s, start, from);
        text::lemma_boundary_prefix(s, from, to);
        vstd::utf8::decode_utf8_encode_utf8(s.subrange(start, from));
        vstd::utf8::decode_utf8_encode_utf8(s.subrange(from, to));
        let a0 = vstd::utf8::encode_utf8(x1).len() as int;
        let b0 = a0 + (to - from);
        assert(vstd::utf8::encode_utf8(x).len() == from - start);
        assert(vstd::utf8::encode_utf8(m).len() == to - from);
        let indent = vstd::utf8::encode_utf8(shown).len() - vstd::utf8::encode_utf8(
            text::trimmed_start(shown),
        ).len();
        assert(indent == (from - start) - a0);
        assert(b0 <= bytes.len());
        assert(lines::snippet_of(s, from, to) == lines::window(raw, a0, b0));
        lemma_window_bounds(raw, a0, b0);
        let a = lines::boundary_before(bytes, vstd::math::max(a0 - lines::CONTEXT_BYTES, 0));
        let b = lines::boundary_after(
            bytes,
            vstd::math::min(b0 + lines::CONTEXT_BYTES, bytes.len() as int),
        );
        assert(raw =~= x1 + (m + y1));
        lemma_prefix_boundary(x1, m + y1);
        lemma_prefix_boundary(x1 + m, y1);
        lemma_decode_split(bytes, a, a0, b);
        lemma_decode_split(bytes, a0, b0, b);
        assert(bytes.subrange(a0, b0) =~= vstd::utf8::encode_utf8(m));
        vstd::utf8::encode_utf8_decode_utf8(m);
        let p = vstd::utf8::decode_utf8(bytes.subrange(a, a0));
        let q = vstd::utf8::decode_utf8(bytes.subrange(b0, b));
        let head = if a > 0 {
            "\u{2026}"@
        } else {
            seq![]
        };
        let tail = if b < bytes.len() {
            "\u{2026}"@
        } else {
            seq![]
        };
        assert(lines::window(raw, a0, b0) =~= (head + p) + m + (q + tail));
    }
}

/// **Law.** The lines that a match spans reach from the start of the line in which it starts to the end of
/// the line in which it ends.
pub proof fn law_spanned_lines(s: Seq<u8>, from: int, to: int) -> (ab: (int, int))
    requires
        0 <= from <= to <= s.len(),
    ensures
        0 <= ab.0 <= from,
        to <= ab.1 <= s.len(),
        lines::spanned_lines(s, from, to) == vstd::utf8::decode_utf8(s.subrange(ab.0, ab.1)),
        ab.0 == 0 || s[ab.0 - 1] == 10u8,
        forall|q: int| ab.0 <= q < from ==> s[q] != 10u8,
        ab.1 == s.len() || s[ab.1] == 10u8,
        forall|q: int| to <= q < ab.1 ==> s[q] != 10u8,
{
    lines::lemma_line_start(s, from);
    lex_spec::lemma_index_from(s, to, '\n' as u8);
    (lines::line_start(s, from), lines::line_end(s, to))
}

/// **Law.** Of lines longer than 2 KB a snippet shows the match with 120 bytes on either side, or up to
/// three more where these would cut a character, and an ellipsis on each side where something is left out.
pub proof fn law_long_snippet(s: Seq<u8>, from: int, to: int) -> (ab: (int, int))
    requires
        0 <= from <= to <= s.len(),
        vstd::utf8::encode_utf8(text::trimmed(lines::spanned_lines(s, from, to))).len() > 2048,
        lines::line_start(s, from) + leading_bytes(lines::spanned_lines(s, from, to)) <= from,
        to <= lines::line_start(s, from) + leading_bytes(lines::spanned_lines(s, from, to))
            + vstd::utf8::encode_utf8(text::trimmed(lines::spanned_lines(s, from, to))).len(),
    ensures
        ({
            let shown = lines::spanned_lines(s, from, to);
            let bytes = vstd::utf8::encode_utf8(text::trimmed(shown));
            let p = from - lines::line_start(s, from) - leading_bytes(shown);
            let q = to - lines::line_start(s, from) - leading_bytes(shown);
            &&& 0 <= ab.0 <= p <= q <= ab.1 <= bytes.len()
            &&& p <= 120 ==> ab.0 == 0
            &&& p > 120 ==> p - 123 <= ab.0 <= p - 120
            &&& q + 120 >= bytes.len() ==> ab.1 == bytes.len()
            &&& q + 120 < bytes.len() ==> q + 120 <= ab.1 <= q + 123
            &&& lines::snippet_of(s, from, to) == (if ab.0 == 0 {
                seq![]
            } else {
                seq!['\u{2026}']
            }) + vstd::utf8::decode_utf8(bytes.subrange(ab.0, ab.1)) + (if ab.1 == bytes.len() {
                seq![]
            } else {
                seq!['\u{2026}']
            })
        }),
{
    let shown = lines::spanned_lines(s, from, to);
    let raw = text::trimmed(shown);
    let bytes = vstd::utf8::encode_utf8(raw);
    let n = bytes.len() as int;
    let p = from - lines::line_start(s, from) - leading_bytes(shown);
    let q = to - lines::line_start(s, from) - leading_bytes(shown);
    reveal_strlit("\u{2026}");
    assert("\u{2026}"@ =~= seq!['\u{2026}']);
    vstd::utf8::encode_utf8_valid_utf8(raw);
    lemma_window_bounds(raw, p, q);
    let i = if p > 120 {
        p - 120
    } else {
        0
    };
    let k = if q + 120 < n {
        q + 120
    } else {
        n
    };
    let a = lines::boundary_before(bytes, i);
    let b = lines::boundary_after(bytes, k);
    let j = lemma_boundary_near_before(bytes, i);
    lemma_boundary_before_from(bytes, i, j);
    let l = lemma_boundary_near_after(bytes, k);
    lemma_boundary_after_to(bytes, k, l);
    lines::lemma_boundary_before(bytes, i);
    lines::lemma_boundary_after(bytes, k);
    (a, b)
}

/// Number of bytes of the white space in front of a text.
pub open spec fn leading_bytes(shown: Seq<char>) -> int {
    vstd::utf8::encode_utf8(shown).len() - vstd::utf8::encode_utf8(text::trimmed_start(shown)).len()
}

// ---------------------------------------------------------------------------
// Lines and statements
// ---------------------------------------------------------------------------

/// Number of newlines from `a` to `b`.
pub open spec fn newlines_in(s: Seq<u8>, a: int, b: int) -> int
    decreases b - a,
{
    if b <= a {
        0
    } else if s[b - 1] == 10u8 {
        newlines_in(s, a, b - 1) + 1
    } else {
        newlines_in(s, a, b - 1)
    }
}

pub proof fn lemma_newlines_split(s: Seq<u8>, a: int, m: int, b: int)
    requires
        a <= m <= b,
    ensures
        newlines_in(s, a, b) == newlines_in(s, a, m) + newlines_in(s, m, b),
        newlines_in(s, a, m) >= 0,
        newlines_in(s, m, b) >= 0,
    decreases b - m, m - a,
{
    if m < b {
        lemma_newlines_split(s, a, m, b - 1);
    } else if a < m {
        lemma_newlines_split(s, a, m - 1, m - 1);
    }
}

/// The line of a position is one more than the newlines before it.
pub proof fn lemma_line(s: Seq<u8>, p: int)
    ensures
        lex_spec::line_at(s, p) == newlines_in(s, 0, p) + 1,
    decreases p,
{
    if p > 0 {
        lemma_line(s, p - 1);
    }
}

/// **Law.** Line and column tell the position: no two positions of a text have both in common.
pub proof fn law_place_unique(s: Seq<u8>, p: int, q: int)
    requires
        0 <= p <= s.len(),
        0 <= q <= s.len(),
        lex_spec::line_at(s, p) == lex_spec::line_at(s, q),
        p - lines::line_start(s, p) == q - lines::line_start(s, q),
    ensures
        p == q,
{
    if p < q {
        lemma_same_line(s, p, q);
    } else if q < p {
        lemma_same_line(s, q, p);
    }
}

proof fn lemma_same_line(s: Seq<u8>, p: int, q: int)
    requires
        0 <= p <= q <= s.len(),
        lex_spec::newlines(s, p) == lex_spec::newlines(s, q),
    ensures
        lines::line_start(s, p) == lines::line_start(s, q),
    decreases q - p,
{
    if p < q {
        lex_spec::lemma_newlines_bounds(s, p, q - 1);
        lemma_same_line(s, p, q - 1);
    }
}

/// **Law.** A window of `n` lines ends behind the `n`-th newline, or at the limit if there are
/// fewer: it never holds more than `n` newlines.
pub proof fn law_lines_after(s: Seq<u8>, p: int, n: int, limit: int)
    requires
        0 <= p <= limit <= s.len(),
        n >= 1,
    ensures
        p <= lines::lines_after(s, p, n, limit) <= limit,
        lex_spec::newlines(s, lines::lines_after(s, p, n, limit)) - lex_spec::newlines(s, p) <= n,
        lines::lines_after(s, p, n, limit) == limit || lex_spec::newlines(
            s,
            lines::lines_after(s, p, n, limit),
        ) - lex_spec::newlines(s, p) == n,
    decreases limit - p,
{
    if p < limit {
        if s[p] != '\n' as u8 {
            law_lines_after(s, p + 1, n, limit);
        } else if n > 1 {
            law_lines_after(s, p + 1, n - 1, limit);
        }
    }
}

/// **Law.** A window of `n` lines before a position starts at the start of a line, or at the floor
/// if there are fewer: it never holds more than `n` newlines.
pub proof fn law_lines_before(s: Seq<u8>, p: int, n: int, floor: int)
    requires
        0 <= floor <= p <= s.len(),
        n >= 0,
    ensures
        floor <= lines::lines_before(s, p, n, floor) <= p,
        lex_spec::newlines(s, p) - lex_spec::newlines(s, lines::lines_before(s, p, n, floor)) <= n,
        lines::lines_before(s, p, n, floor) == floor || (lex_spec::newlines(s, p)
            - lex_spec::newlines(s, lines::lines_before(s, p, n, floor)) == n
            && s[lines::lines_before(s, p, n, floor) - 1] == '\n' as u8),
    decreases p - floor,
{
    if p > floor {
        if s[p - 1] != '\n' as u8 {
            law_lines_before(s, p - 1, n, floor);
        } else if n > 0 {
            law_lines_before(s, p - 1, n - 1, floor);
        }
    }
}

/// **Law.** The statement around a match reaches back to the nearest statement boundary before it,
/// or to the start of the body.
pub proof fn law_statement_start(
    s: Seq<u8>,
    comments: Seq<(int, int)>,
    strings: Seq<(int, int)>,
    p: int,
    lo: int,
)
    requires
        lo <= p,
    ensures
        lo <= lines::statement_start(s, comments, strings, p, lo) <= p,
        forall|q: int|
            lines::statement_start(s, comments, strings, p, lo) <= q < p
                ==> !#[trigger] lines::ends_statement(s, comments, strings, q),
        lines::statement_start(s, comments, strings, p, lo) == lo || lines::ends_statement(
            s,
            comments,
            strings,
            lines::statement_start(s, comments, strings, p, lo) - 1,
        ),
    decreases p - lo,
{
    if p > lo && !lines::ends_statement(s, comments, strings, p - 1) {
        law_statement_start(s, comments, strings, p - 1, lo);
    }
}

/// **Law.** The statement around a match reaches to the nearest statement boundary behind it,
/// which it takes in, or to the end of the body.
pub proof fn law_statement_end(
    s: Seq<u8>,
    comments: Seq<(int, int)>,
    strings: Seq<(int, int)>,
    p: int,
    hi: int,
)
    requires
        p <= hi,
    ensures
        p <= lines::statement_end(s, comments, strings, p, hi) <= hi,
        forall|q: int|
            p <= q < lines::statement_end(s, comments, strings, p, hi) - 1
                ==> !#[trigger] lines::ends_statement(s, comments, strings, q),
        lines::statement_end(s, comments, strings, p, hi) == hi || lines::ends_statement(
            s,
            comments,
            strings,
            lines::statement_end(s, comments, strings, p, hi) - 1,
        ),
    decreases hi - p,
{
    if p < hi && !lines::ends_statement(s, comments, strings, p) {
        law_statement_end(s, comments, strings, p + 1, hi);
    }
}

} // verus!
