//! Lines and statements: positions, windows around a match, and the snippet shown with it.

use crate::lex_spec;
use crate::lexer;
use crate::ranges;
use crate::ranges::in_any_range;
use crate::text;
use crate::text::{chars_of, leading_white, slice_str, string_of, trailing_white};
use std::ops::Range;
use vstd::prelude::*;
use vstd::string::*;

verus! {

// ---------------------------------------------------------------------------
// Lines
// ---------------------------------------------------------------------------

/// Start of the line that position `p` is in.
pub open spec fn line_start(s: Seq<u8>, p: int) -> int
    decreases p,
{
    if p <= 0 {
        0
    } else if s[p - 1] == '\n' as u8 {
        p
    } else {
        line_start(s, p - 1)
    }
}

/// End of the line that position `p` is in: that of its newline, or of the text.
pub open spec fn line_end(s: Seq<u8>, p: int) -> int {
    lex_spec::index_from(s, p, '\n' as u8)
}

pub proof fn lemma_line_start(s: Seq<u8>, p: int)
    requires
        0 <= p <= s.len(),
    ensures
        0 <= line_start(s, p) <= p,
        line_start(s, p) > 0 ==> s[line_start(s, p) - 1] == '\n' as u8,
        forall|k: int| line_start(s, p) <= k < p ==> s[k] != '\n' as u8,
    decreases p,
{
    if p > 0 && s[p - 1] != '\n' as u8 {
        lemma_line_start(s, p - 1);
    }
}

fn find_line_start(s: &[u8], p: usize) -> (r: usize)
    requires
        p <= s@.len(),
    ensures
        r == line_start(s@, p as int),
        r <= p,
{
    let mut i: usize = p;
    while i > 0 && s[i - 1] != '\n' as u8
        invariant
            i <= p <= s@.len(),
            line_start(s@, p as int) == line_start(s@, i as int),
        decreases i,
    {
        i = i - 1;
    }
    i
}

fn find_line_end(s: &[u8], p: usize) -> (r: usize)
    requires
        p <= s@.len(),
    ensures
        r == line_end(s@, p as int),
        p <= r <= s@.len(),
{
    let mut i: usize = p;
    while i < s.len() && s[i] != '\n' as u8
        invariant
            p <= i <= s@.len(),
            line_end(s@, p as int) == line_end(s@, i as int),
        decreases s@.len() - i,
    {
        i = i + 1;
    }
    i
}

/// Convert a byte offset into a 1-based line and column.  The column counts bytes; an offset behind
/// the end counts as one on the last line.
pub fn byte_to_line_col(source: &str, byte_offset: usize) -> (r: (usize, usize))
    requires
        byte_offset < usize::MAX,
    ensures
        ({
            let p = vstd::math::min(byte_offset as int, source.spec_bytes().len() as int);
            &&& r.0 == lex_spec::line_at(source.spec_bytes(), p)
            &&& r.1 == byte_offset - line_start(source.spec_bytes(), p) + 1
        }),
{
    let bytes = source.as_bytes();
    let end: usize = if byte_offset < bytes.len() {
        byte_offset
    } else {
        bytes.len()
    };
    let mut line: usize = 1;
    let mut i: usize = 0;
    while i < end
        invariant
            i <= end <= bytes@.len(),
            end < usize::MAX,
            line == lex_spec::line_at(bytes@, i as int),
            line <= i + 1,
        decreases end - i,
    {
        if bytes[i] == '\n' as u8 {
            line = line + 1;
        }
        i = i + 1;
    }
    (line, byte_offset - find_line_start(bytes, end) + 1)
}

/// Position just after the `n`-th newline at or after `p`, or `limit` if there are fewer before
/// it.
pub open spec fn lines_after(s: Seq<u8>, p: int, n: int, limit: int) -> int
    decreases limit - p,
{
    if p >= limit {
        limit
    } else if s[p] == '\n' as u8 {
        if n == 1 {
            p + 1
        } else {
            lines_after(s, p + 1, n - 1, limit)
        }
    } else {
        lines_after(s, p + 1, n, limit)
    }
}

/// Start of the line that is `n` newlines before `p`, or `floor` if there are fewer behind it.
pub open spec fn lines_before(s: Seq<u8>, p: int, n: int, floor: int) -> int
    decreases p - floor,
{
    if p <= floor {
        floor
    } else if s[p - 1] == '\n' as u8 {
        if n == 0 {
            p
        } else {
            lines_before(s, p - 1, n - 1, floor)
        }
    } else {
        lines_before(s, p - 1, n, floor)
    }
}

proof fn lemma_no_lines_after(s: Seq<u8>, p: int, n: int, limit: int)
    requires
        n <= 0,
    ensures
        lines_after(s, p, n, limit) == limit,
    decreases limit - p,
{
    if p < limit {
        lemma_no_lines_after(s, p + 1, n - 1, limit);
        lemma_no_lines_after(s, p + 1, n, limit);
    }
}

/// Advance `pos` by `n` newlines, stopping at `limit`.  With `n = 0` there is no newline to stop
/// at.
pub fn advance_n_lines(source: &[u8], pos: usize, n: usize, limit: usize) -> (r: usize)
    requires
        limit <= source@.len(),
    ensures
        r == lines_after(source@, pos as int, n as int, limit as int),
        r <= limit,
{
    if n == 0 {
        proof {
            lemma_no_lines_after(source@, pos as int, 0, limit as int);
        }
        return limit;
    }
    let mut p: usize = pos;
    let mut remaining: usize = n;
    while p < limit
        invariant
            limit <= source@.len(),
            remaining >= 1,
            lines_after(source@, pos as int, n as int, limit as int) == lines_after(
                source@,
                p as int,
                remaining as int,
                limit as int,
            ),
        decreases limit - p,
    {
        if source[p] == '\n' as u8 {
            if remaining == 1 {
                return p + 1;
            }
            remaining = remaining - 1;
        }
        p = p + 1;
    }
    limit
}

/// Retreat `pos` by `n` newlines, stopping at `floor`.
pub fn retreat_n_lines(source: &[u8], pos: usize, n: usize, floor: usize) -> (r: usize)
    requires
        pos <= source@.len(),
    ensures
        r == lines_before(source@, pos as int, n as int, floor as int),
        r >= floor,
{
    let mut p: usize = pos;
    let mut remaining: usize = n;
    while p > floor
        invariant
            p <= pos <= source@.len(),
            lines_before(source@, pos as int, n as int, floor as int) == lines_before(
                source@,
                p as int,
                remaining as int,
                floor as int,
            ),
        decreases p,
    {
        if source[p - 1] == '\n' as u8 {
            if remaining == 0 {
                return p;
            }
            remaining = remaining - 1;
        }
        p = p - 1;
    }
    floor
}

// ---------------------------------------------------------------------------
// Statements
// ---------------------------------------------------------------------------

/// The byte at `p` is a `;`, `{` or `}` in code.
pub open spec fn ends_statement(
    s: Seq<u8>,
    comments: Seq<(int, int)>,
    strings: Seq<(int, int)>,
    p: int,
) -> bool {
    ranges::is_code(comments, strings, p) && (s[p] == ';' as u8 || s[p] == '{' as u8 || s[p]
        == '}' as u8)
}

/// Position behind the last statement boundary before `p`, or `lo`.
pub open spec fn statement_start(
    s: Seq<u8>,
    comments: Seq<(int, int)>,
    strings: Seq<(int, int)>,
    p: int,
    lo: int,
) -> int
    decreases p - lo,
{
    if p <= lo {
        lo
    } else if ends_statement(s, comments, strings, p - 1) {
        p
    } else {
        statement_start(s, comments, strings, p - 1, lo)
    }
}

/// Position behind the first statement boundary at or after `p`, or `hi`.
pub open spec fn statement_end(
    s: Seq<u8>,
    comments: Seq<(int, int)>,
    strings: Seq<(int, int)>,
    p: int,
    hi: int,
) -> int
    decreases hi - p,
{
    if p >= hi {
        hi
    } else if ends_statement(s, comments, strings, p) {
        p + 1
    } else {
        statement_end(s, comments, strings, p + 1, hi)
    }
}

fn is_statement_end(
    s: &[u8],
    comment_ranges: &[Range<usize>],
    string_ranges: &[Range<usize>],
    p: usize,
) -> (r: bool)
    requires
        p < s@.len(),
        ranges::disjoint_sorted(lexer::range_views(comment_ranges@)),
        ranges::disjoint_sorted(lexer::range_views(string_ranges@)),
    ensures
        r == ends_statement(
            s@,
            lexer::range_views(comment_ranges@),
            lexer::range_views(string_ranges@),
            p as int,
        ),
{
    if in_any_range(p, comment_ranges) || in_any_range(p, string_ranges) {
        return false;
    }
    s[p] == ';' as u8 || s[p] == '{' as u8 || s[p] == '}' as u8
}

/// The statement around the bytes from `from` to `to`, within `body`.
pub fn statement_bounds(
    source: &[u8],
    from: usize,
    to: usize,
    body: &Range<usize>,
    comment_ranges: &[Range<usize>],
    string_ranges: &[Range<usize>],
) -> (r: (usize, usize))
    requires
        from <= source@.len(),
        body.end <= source@.len(),
        ranges::disjoint_sorted(lexer::range_views(comment_ranges@)),
        ranges::disjoint_sorted(lexer::range_views(string_ranges@)),
    ensures
        r.0 == statement_start(
            source@,
            lexer::range_views(comment_ranges@),
            lexer::range_views(string_ranges@),
            from as int,
            body.start as int,
        ),
        r.1 == statement_end(
            source@,
            lexer::range_views(comment_ranges@),
            lexer::range_views(string_ranges@),
            to as int,
            body.end as int,
        ),
        r.1 <= body.end,
{
    let ghost c = lexer::range_views(comment_ranges@);
    let ghost t = lexer::range_views(string_ranges@);
    let mut start: usize = from;
    while start > body.start && !is_statement_end(source, comment_ranges, string_ranges, start - 1)
        invariant
            c == lexer::range_views(comment_ranges@),
            t == lexer::range_views(string_ranges@),
            ranges::disjoint_sorted(c),
            ranges::disjoint_sorted(t),
            start <= from <= source@.len(),
            statement_start(source@, c, t, from as int, body.start as int) == statement_start(
                source@,
                c,
                t,
                start as int,
                body.start as int,
            ),
        decreases start,
    {
        start = start - 1;
    }
    if start < body.start {
        start = body.start;
    }
    let mut end: usize = to;
    while end < body.end && !is_statement_end(source, comment_ranges, string_ranges, end)
        invariant
            c == lexer::range_views(comment_ranges@),
            t == lexer::range_views(string_ranges@),
            ranges::disjoint_sorted(c),
            ranges::disjoint_sorted(t),
            body.end <= source@.len(),
            statement_end(source@, c, t, to as int, body.end as int) == statement_end(
                source@,
                c,
                t,
                end as int,
                body.end as int,
            ),
        decreases body.end - end,
    {
        end = end + 1;
    }
    if end < body.end {
        end = end + 1;
    } else {
        end = body.end;
    }
    (start, end)
}

// ---------------------------------------------------------------------------
// Snippets
// ---------------------------------------------------------------------------

/// Snippets of at most this many bytes are shown whole.
pub const MAX_SNIPPET_BYTES: usize = 2048;

/// Bytes shown on each side of the match in a longer snippet.
pub const CONTEXT_BYTES: usize = 120;

/// Last character boundary at or before `i`.
pub open spec fn boundary_before(s: Seq<u8>, i: int) -> int
    decreases i,
{
    if i <= 0 || vstd::utf8::is_char_boundary(s, i) {
        i
    } else {
        boundary_before(s, i - 1)
    }
}

/// First character boundary at or after `i`, or the length of the text.
pub open spec fn boundary_after(s: Seq<u8>, i: int) -> int
    decreases s.len() - i,
{
    if i >= s.len() {
        s.len() as int
    } else if vstd::utf8::is_char_boundary(s, i) {
        i
    } else {
        boundary_after(s, i + 1)
    }
}

/// The lines that the bytes from `from` to `to` span, as a text.
pub open spec fn spanned_lines(s: Seq<u8>, from: int, to: int) -> Seq<char> {
    vstd::utf8::decode_utf8(s.subrange(line_start(s, from), line_end(s, to)))
}

/// Part of `raw` around the bytes from `from` to `to`, with an ellipsis where it is cut.
pub open spec fn window(raw: Seq<char>, from: int, to: int) -> Seq<char> {
    let bytes = vstd::utf8::encode_utf8(raw);
    let a = boundary_before(bytes, vstd::math::max(from - CONTEXT_BYTES, 0));
    let b = boundary_after(bytes, vstd::math::min(to + CONTEXT_BYTES, bytes.len() as int));
    (if a > 0 {
        "\u{2026}"@
    } else {
        seq![]
    }) + vstd::utf8::decode_utf8(bytes.subrange(a, b)) + (if b < bytes.len() {
        "\u{2026}"@
    } else {
        seq![]
    })
}

/// What is shown of the source with the match from `from` to `to`: the lines it spans without the
/// white space around them, or a window of them if they are long.
pub open spec fn snippet_of(s: Seq<u8>, from: int, to: int) -> Seq<char> {
    let lines = spanned_lines(s, from, to);
    let raw = text::trimmed(lines);
    let bytes = vstd::utf8::encode_utf8(raw);
    if bytes.len() <= MAX_SNIPPET_BYTES {
        raw
    } else {
        let indent = vstd::utf8::encode_utf8(lines).len() - vstd::utf8::encode_utf8(
            text::trimmed_start(lines),
        ).len();
        let origin = line_start(s, from) + indent;
        window(
            raw,
            vstd::math::max(from - origin, 0),
            vstd::math::min(vstd::math::max(to - origin, 0), bytes.len() as int),
        )
    }
}

pub proof fn lemma_boundary_before(s: Seq<u8>, i: int)
    requires
        vstd::utf8::valid_utf8(s),
        0 <= i,
    ensures
        0 <= boundary_before(s, i) <= i,
        boundary_before(s, i) <= s.len(),
        vstd::utf8::is_char_boundary(s, boundary_before(s, i)),
    decreases i,
{
    if i > 0 && !vstd::utf8::is_char_boundary(s, i) {
        lemma_boundary_before(s, i - 1);
    }
}

pub proof fn lemma_boundary_after(s: Seq<u8>, i: int)
    requires
        vstd::utf8::valid_utf8(s),
        0 <= i <= s.len(),
    ensures
        i <= boundary_after(s, i) <= s.len(),
        vstd::utf8::is_char_boundary(s, boundary_after(s, i)),
    decreases s.len() - i,
{
    vstd::utf8::is_char_boundary_start_end_of_seq(s);
    if i < s.len() && !vstd::utf8::is_char_boundary(s, i) {
        lemma_boundary_after(s, i + 1);
    }
}

/// A newline stands on its own: its place and the place behind it are character boundaries.
pub proof fn lemma_newline_boundary(s: Seq<u8>, p: int)
    requires
        vstd::utf8::valid_utf8(s),
        0 <= p < s.len(),
        s[p] == '\n' as u8,
    ensures
        vstd::utf8::is_char_boundary(s, p),
        vstd::utf8::is_char_boundary(s, p + 1),
{
    assert(!vstd::utf8::is_continuation_byte(10u8)) by (bit_vector);
    assert(vstd::utf8::is_leading_byte_width_1(10u8)) by (bit_vector);
    vstd::utf8::is_char_boundary_iff_not_is_continuation_byte(s, p);
    lemma_boundary_past_ascii(s, p);
}

proof fn lemma_boundary_past_ascii(s: Seq<u8>, p: int)
    requires
        vstd::utf8::valid_utf8(s),
        0 <= p < s.len(),
        vstd::utf8::is_char_boundary(s, p),
        vstd::utf8::is_leading_byte_width_1(s[p]),
    ensures
        vstd::utf8::is_char_boundary(s, p + 1),
    decreases s.len(),
{
    if p == 0 {
        reveal_with_fuel(vstd::utf8::is_char_boundary, 2);
        assert(vstd::utf8::length_of_first_scalar(s) == 1);
    } else {
        let n = vstd::utf8::length_of_first_scalar(s);
        let rest = vstd::utf8::pop_first_scalar(s);
        assert(vstd::utf8::is_char_boundary(rest, p - n));
        assert(n <= p) by {
            reveal_with_fuel(vstd::utf8::is_char_boundary, 2);
        }
        lemma_boundary_past_ascii(rest, p - n);
    }
}

pub proof fn lemma_line_bounds(s: Seq<u8>, from: int, to: int)
    requires
        vstd::utf8::valid_utf8(s),
        0 <= from <= to <= s.len(),
    ensures
        0 <= line_start(s, from) <= from,
        to <= line_end(s, to) <= s.len(),
        vstd::utf8::is_char_boundary(s, line_start(s, from)),
        vstd::utf8::is_char_boundary(s, line_end(s, to)),
{
    lemma_line_start(s, from);
    lex_spec::lemma_index_from(s, to, '\n' as u8);
    vstd::utf8::is_char_boundary_start_end_of_seq(s);
    if line_start(s, from) > 0 {
        lemma_newline_boundary(s, line_start(s, from) - 1);
    }
    if line_end(s, to) < s.len() {
        lemma_newline_boundary(s, line_end(s, to));
    }
}

fn floor_boundary(s: &str, i: usize) -> (r: usize)
    ensures
        r == boundary_before(s.spec_bytes(), i as int),
        r <= i,
        r <= s.spec_bytes().len(),
        vstd::utf8::is_char_boundary(s.spec_bytes(), r as int),
{
    proof {
        vstd::utf8::encode_utf8_valid_utf8(s@);
        lemma_boundary_before(s.spec_bytes(), i as int);
    }
    let mut j: usize = i;
    while j > 0 && !s.is_char_boundary(j)
        invariant
            boundary_before(s.spec_bytes(), i as int) == boundary_before(s.spec_bytes(), j as int),
        decreases j,
    {
        j = j - 1;
    }
    j
}

fn ceil_boundary(s: &str, i: usize) -> (r: usize)
    requires
        i <= s.spec_bytes().len(),
    ensures
        r == boundary_after(s.spec_bytes(), i as int),
        i <= r <= s.spec_bytes().len(),
        vstd::utf8::is_char_boundary(s.spec_bytes(), r as int),
{
    proof {
        vstd::utf8::encode_utf8_valid_utf8(s@);
        lemma_boundary_after(s.spec_bytes(), i as int);
    }
    let n: usize = s.as_bytes().len();
    let mut j: usize = i;
    while j < n && !s.is_char_boundary(j)
        invariant
            j <= n == s.spec_bytes().len(),
            boundary_after(s.spec_bytes(), i as int) == boundary_after(s.spec_bytes(), j as int),
        decreases n - j,
    {
        j = j + 1;
    }
    j
}

/// The part of `raw` around the bytes from `from` to `to`.
fn cut_window(raw: &str, from: usize, to: usize) -> (r: String)
    requires
        to <= raw.spec_bytes().len(),
        from <= to || to == raw.spec_bytes().len(),
    ensures
        r@ == window(raw@, from as int, to as int),
{
    let n: usize = raw.as_bytes().len();
    let a = floor_boundary(
        raw,
        if from > CONTEXT_BYTES {
            from - CONTEXT_BYTES
        } else {
            0
        },
    );
    let b = ceil_boundary(
        raw,
        if n - to < CONTEXT_BYTES {
            n
        } else {
            to + CONTEXT_BYTES
        },
    );
    let mut out = String::new();
    if a > 0 {
        out.push_str("\u{2026}");
    }
    out.push_str(slice_str(raw, a, b));
    if b < n {
        out.push_str("\u{2026}");
    }
    assert(out@ =~= window(raw@, from as int, to as int));
    out
}

/// Extract the source lines that a match spans, without the white space around them.
///
/// A snippet of more than 2 KB, such as a line of minified code, is cut to a window around the
/// match, with an ellipsis on each side that was cut.
pub fn extract_snippet(source: &str, byte_pos: usize, match_len: usize) -> (r: String)
    requires
        byte_pos <= source.spec_bytes().len(),
        byte_pos + match_len <= usize::MAX,
    ensures
        r@ == snippet_of(
            source.spec_bytes(),
            byte_pos as int,
            vstd::math::min(byte_pos + match_len, source.spec_bytes().len() as int),
        ),
{
    let bytes = source.as_bytes();
    let ghost s = source.spec_bytes();
    let match_end: usize = if byte_pos + match_len < bytes.len() {
        byte_pos + match_len
    } else {
        bytes.len()
    };
    proof {
        vstd::utf8::encode_utf8_valid_utf8(source@);
        lemma_line_bounds(s, byte_pos as int, match_end as int);
    }
    let start = find_line_start(bytes, byte_pos);
    let end = find_line_end(bytes, match_end);
    let lines = slice_str(source, start, end);
    let chars = chars_of(lines);
    let first = leading_white(chars.as_slice());
    let last = trailing_white(chars.as_slice(), first);
    let raw = string_of(chars.as_slice(), first, last);
    let size: usize = raw.as_str().as_bytes().len();
    if size <= MAX_SNIPPET_BYTES {
        return raw;
    }
    let unindented = string_of(chars.as_slice(), first, chars.len());
    proof {
        assert(unindented@ =~= text::trimmed_start(lines@));
        assert(lines@ =~= lines@.take(first as int) + unindented@);
        text::lemma_encode_concat(lines@.take(first as int), unindented@);
        assert(unindented@ =~= raw@ + chars@.skip(last as int));
        text::lemma_encode_concat(raw@, chars@.skip(last as int));
    }
    let indent: usize = (end - start) - unindented.as_str().as_bytes().len();
    let origin: usize = start + indent;
    let rel_start: usize = if byte_pos > origin {
        byte_pos - origin
    } else {
        0
    };
    let mut rel_end: usize = if match_end > origin {
        match_end - origin
    } else {
        0
    };
    if rel_end > size {
        rel_end = size;
    }
    cut_window(raw.as_str(), rel_start, rel_end)
}

} // verus!
