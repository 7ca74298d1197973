//! Character-level text operations with exact contracts.

use vstd::prelude::*;
use vstd::string::*;

verus! {

/// `String::push`: appends one character at the end of the string.
pub assume_specification[ String::push ](s: &mut String, ch: char)
    ensures
        final(s)@ == old(s)@.push(ch),
;

/// `String::push_str`: appends a string slice at the end of the string.
pub assume_specification[ String::push_str ](s: &mut String, other: &str)
    ensures
        final(s)@ == old(s)@ + other@,
;

/// Two strings hold the same characters.
pub fn str_eq(a: &str, b: &str) -> (r: bool)
    ensures
        r == (a@ == b@),
{
    let x = a.as_bytes();
    let y = b.as_bytes();
    proof {
        vstd::utf8::encode_utf8_decode_utf8(a@);
        vstd::utf8::encode_utf8_decode_utf8(b@);
    }
    if x.len() != y.len() {
        return false;
    }
    let mut i: usize = 0;
    while i < x.len()
        invariant
            x@ == vstd::utf8::encode_utf8(a@),
            y@ == vstd::utf8::encode_utf8(b@),
            x@.len() == y@.len(),
            i <= x@.len(),
            forall|j: int| 0 <= j < i ==> x@[j] == y@[j],
        decreases x@.len() - i,
    {
        if x[i] != y[i] {
            assert(x@ != y@);
            return false;
        }
        i = i + 1;
    }
    assert(x@ == y@);
    true
}

// ---------------------------------------------------------------------------
// Characters
// ---------------------------------------------------------------------------

/// The characters of a string.
pub fn chars_of(s: &str) -> (r: Vec<char>)
    ensures
        r@ == s@,
{
    let mut out: Vec<char> = Vec::new();
    for c in it: s.chars()
        invariant
            out@ == it.seq().take(it.index()),
            it.seq() == s@,
    {
        out.push(c);
        assert(out@ =~= it.seq().take(it.index() + 1));
    }
    assert(out@ =~= s@);
    out
}

/// The string of the characters from `from` to `to`.
pub fn string_of(chars: &[char], from: usize, to: usize) -> (r: String)
    requires
        from <= to <= chars@.len(),
    ensures
        r@ == chars@.subrange(from as int, to as int),
{
    let mut out = String::new();
    let mut i: usize = from;
    while i < to
        invariant
            from <= i <= to <= chars@.len(),
            out@ == chars@.subrange(from as int, i as int),
        decreases to - i,
    {
        out.push(chars[i]);
        assert(out@ =~= chars@.subrange(from as int, i + 1));
        i = i + 1;
    }
    out
}

// ---------------------------------------------------------------------------
// Splitting and joining
// ---------------------------------------------------------------------------

/// `sep` occurs in `s` at position `i`.
pub open spec fn sep_at(s: Seq<char>, sep: Seq<char>, i: int) -> bool {
    0 <= i && i + sep.len() <= s.len() && s.subrange(i, i + sep.len()) == sep
}

/// First position at or after `i` at which `sep` occurs; the length of `s` if none.
pub open spec fn find_sep(s: Seq<char>, sep: Seq<char>, i: int) -> int
    decreases s.len() - i,
{
    if i >= s.len() {
        s.len() as int
    } else if sep_at(s, sep, i) {
        i
    } else {
        find_sep(s, sep, i + 1)
    }
}

pub proof fn lemma_find_sep(s: Seq<char>, sep: Seq<char>, i: int)
    requires
        0 <= i <= s.len(),
        sep.len() > 0,
    ensures
        i <= find_sep(s, sep, i) <= s.len(),
        find_sep(s, sep, i) < s.len() ==> sep_at(s, sep, find_sep(s, sep, i)),
        forall|k: int| i <= k < find_sep(s, sep, i) ==> !sep_at(s, sep, k),
    decreases s.len() - i,
{
    if i < s.len() && !sep_at(s, sep, i) {
        lemma_find_sep(s, sep, i + 1);
    }
}

/// The pieces of `s` from `start` on between the occurrences of `sep`, taken from the left.
pub open spec fn pieces_from(s: Seq<char>, sep: Seq<char>, start: int) -> Seq<Seq<char>>
    decreases s.len() - start,
        when 0 <= start <= s.len() && sep.len() > 0
{
    let k = find_sep(s, sep, start);
    if k >= s.len() {
        seq![s.subrange(start, s.len() as int)]
    } else {
        proof {
            lemma_find_sep(s, sep, start);
        }
        seq![s.subrange(start, k)] + pieces_from(s, sep, k + sep.len())
    }
}

/// The pieces of `s` between the occurrences of `sep`.
pub open spec fn pieces(s: Seq<char>, sep: Seq<char>) -> Seq<Seq<char>> {
    pieces_from(s, sep, 0)
}

/// The parts one after the other, with `sep` between two of them.
pub open spec fn joined(parts: Seq<Seq<char>>, sep: Seq<char>) -> Seq<char>
    decreases parts.len(),
{
    if parts.len() == 0 {
        seq![]
    } else if parts.len() == 1 {
        parts[0]
    } else {
        joined(parts.drop_last(), sep) + sep + parts.last()
    }
}

/// The views of a sequence of strings.
pub open spec fn string_views(parts: Seq<String>) -> Seq<Seq<char>> {
    parts.map_values(|p: String| p@)
}

/// Whether `sep` occurs in `s` at position `i`.
pub fn is_sep_at(s: &[char], sep: &[char], i: usize) -> (r: bool)
    requires
        i <= s@.len(),
    ensures
        r == sep_at(s@, sep@, i as int),
{
    if sep.len() > s.len() - i {
        return false;
    }
    let mut k: usize = 0;
    while k < sep.len()
        invariant
            k <= sep@.len(),
            i + sep@.len() <= s@.len() <= usize::MAX,
            forall|j: int| 0 <= j < k ==> s@[i + j] == sep@[j],
        decreases sep@.len() - k,
    {
        if s[i + k] != sep[k] {
            assert(s@.subrange(i as int, i + sep@.len())[k as int] != sep@[k as int]);
            return false;
        }
        k = k + 1;
    }
    assert(s@.subrange(i as int, i + sep@.len()) =~= sep@);
    true
}

/// Split `s` at every occurrence of `sep`.
pub fn split_on(s: &str, sep: &str) -> (r: Vec<String>)
    requires
        sep@.len() > 0,
    ensures
        string_views(r@) == pieces(s@, sep@),
{
    let chars = chars_of(s);
    let mark = chars_of(sep);
    let mut out: Vec<String> = Vec::new();
    let mut start: usize = 0;
    let mut i: usize = 0;
    assert(string_views(out@) + pieces(s@, sep@) =~= pieces(s@, sep@));
    while i < chars.len()
        invariant
            chars@ == s@,
            mark@ == sep@,
            sep@.len() > 0,
            start <= i <= s@.len(),
            find_sep(s@, sep@, start as int) == find_sep(s@, sep@, i as int),
            pieces(s@, sep@) == string_views(out@) + pieces_from(s@, sep@, start as int),
        decreases s@.len() - i,
    {
        if is_sep_at(chars.as_slice(), mark.as_slice(), i) {
            let ghost before = out@;
            let ghost rest = pieces_from(s@, sep@, i + sep@.len());
            let piece = string_of(chars.as_slice(), start, i);
            out.push(piece);
            assert(string_views(out@) =~= string_views(before).push(piece@));
            assert(string_views(before) + (seq![piece@] + rest) =~= string_views(out@) + rest);
            start = i + mark.len();
            i = start;
        } else {
            i = i + 1;
        }
    }
    let ghost before = out@;
    let piece = string_of(chars.as_slice(), start, chars.len());
    out.push(piece);
    assert(string_views(out@) =~= string_views(before) + seq![piece@]);
    out
}

/// Join the parts with `sep` between them.
pub fn join(parts: &[String], sep: &str) -> (r: String)
    ensures
        r@ == joined(string_views(parts@), sep@),
{
    let mut out = String::new();
    let ghost views = string_views(parts@);
    let mut i: usize = 0;
    assert(views.take(0) =~= seq![]);
    assert(out@ =~= seq![]);
    while i < parts.len()
        invariant
            views == string_views(parts@),
            i <= parts@.len(),
            out@ == joined(views.take(i as int), sep@),
        decreases parts@.len() - i,
    {
        let ghost next = views.take(i + 1);
        assert(next.drop_last() =~= views.take(i as int));
        assert(next.last() == parts@[i as int]@);
        if i > 0 {
            out.push_str(sep);
        }
        out.push_str(parts[i].as_str());
        assert(out@ =~= joined(next, sep@));
        i = i + 1;
    }
    assert(views.take(i as int) =~= views);
    out
}

proof fn lemma_joined_cons(first: Seq<char>, rest: Seq<Seq<char>>, sep: Seq<char>)
    requires
        rest.len() > 0,
    ensures
        joined(seq![first] + rest, sep) == first + sep + joined(rest, sep),
    decreases rest.len(),
{
    reveal_with_fuel(joined, 2);
    let all = seq![first] + rest;
    assert(all.last() == rest.last());
    assert(all.drop_last() =~= seq![first] + rest.drop_last());
    if rest.len() == 1 {
        assert(all.drop_last() =~= seq![first]);
    } else {
        lemma_joined_cons(first, rest.drop_last(), sep);
        assert(joined(all, sep) =~= first + sep + joined(rest, sep));
    }
}

proof fn lemma_joined_pieces(s: Seq<char>, sep: Seq<char>, start: int)
    requires
        0 <= start <= s.len(),
        sep.len() > 0,
    ensures
        pieces_from(s, sep, start).len() > 0,
        joined(pieces_from(s, sep, start), sep) == s.subrange(start, s.len() as int),
    decreases s.len() - start,
{
    lemma_find_sep(s, sep, start);
    let k = find_sep(s, sep, start);
    if k < s.len() {
        let next = k + sep.len();
        lemma_joined_pieces(s, sep, next);
        lemma_joined_cons(s.subrange(start, k), pieces_from(s, sep, next), sep);
        assert(s.subrange(start, s.len() as int) =~= s.subrange(start, k) + s.subrange(k, next)
            + s.subrange(next, s.len() as int));
    }
}

/// **Law.** Joining the pieces of a text restores it.
pub proof fn law_join_pieces(s: Seq<char>, sep: Seq<char>)
    requires
        sep.len() > 0,
    ensures
        joined(pieces(s, sep), sep) == s,
{
    lemma_joined_pieces(s, sep, 0);
    assert(s.subrange(0, s.len() as int) =~= s);
}

proof fn lemma_find_sep_is(s: Seq<char>, sep: Seq<char>, i: int, k: int)
    requires
        0 <= i <= k <= s.len(),
        sep.len() > 0,
        forall|j: int| i <= j < k ==> !sep_at(s, sep, j),
        k < s.len() ==> sep_at(s, sep, k),
    ensures
        find_sep(s, sep, i) == k,
    decreases k - i,
{
    if i < k {
        lemma_find_sep_is(s, sep, i + 1, k);
    }
}

proof fn lemma_pieces_of_joined(pre: Seq<char>, parts: Seq<Seq<char>>, sep: Seq<char>)
    requires
        sep.len() > 0,
        parts.len() > 0,
        forall|i: int| #![trigger parts[i]] 0 <= i < parts.len() ==> !parts[i].contains(sep[0]),
    ensures
        pieces_from(pre + joined(parts, sep), sep, pre.len() as int) == parts,
    decreases parts.len(),
{
    let s = pre + joined(parts, sep);
    let first = parts[0];
    let rest = parts.skip(1);
    let k: int = (pre.len() + first.len()) as int;
    assert(parts =~= seq![first] + rest);
    if rest.len() > 0 {
        lemma_joined_cons(first, rest, sep);
        assert(s.subrange(k, k + sep.len()) =~= sep);
        assert forall|i: int| #![trigger rest[i]] 0 <= i < rest.len() implies !rest[i].contains(
            sep[0],
        ) by {
            assert(rest[i] == parts[i + 1]);
        }
        let pre2 = pre + first + sep;
        lemma_pieces_of_joined(pre2, rest, sep);
        assert(pre2 + joined(rest, sep) =~= s);
    } else {
        assert(joined(parts, sep) == first);
    }
    assert forall|j: int| pre.len() <= j < k implies !sep_at(s, sep, j) by {
        if sep_at(s, sep, j) {
            assert(s.subrange(j, j + sep.len())[0] == s[j]);
            assert(first[j - pre.len()] == sep[0]);
            assert(first.contains(sep[0]));
        }
    }
    lemma_find_sep_is(s, sep, pre.len() as int, k);
    assert(s.subrange(pre.len() as int, k) =~= first);
}

/// **Law.** Splitting a joined text gives its parts back, where no part holds the first character
/// of the separator.
pub proof fn law_pieces_of_joined(parts: Seq<Seq<char>>, sep: Seq<char>)
    requires
        sep.len() > 0,
        parts.len() > 0,
        forall|i: int| #![trigger parts[i]] 0 <= i < parts.len() ==> !parts[i].contains(sep[0]),
    ensures
        pieces(joined(parts, sep), sep) == parts,
{
    lemma_pieces_of_joined(seq![], parts, sep);
    assert(Seq::<char>::empty() + joined(parts, sep) =~= joined(parts, sep));
}

// ---------------------------------------------------------------------------
// Replacing
// ---------------------------------------------------------------------------

/// `s` with every `c` replaced by `with`.
pub open spec fn replaced(s: Seq<char>, c: char, with: Seq<char>) -> Seq<char>
    decreases s.len(),
{
    if s.len() == 0 {
        seq![]
    } else {
        replaced(s.drop_last(), c, with) + (if s.last() == c {
            with
        } else {
            seq![s.last()]
        })
    }
}

/// Replace every `c` in `s` by `with`.
pub fn replace_char(s: &str, c: char, with: &str) -> (r: String)
    ensures
        r@ == replaced(s@, c, with@),
{
    let chars = chars_of(s);
    let mut out = String::new();
    let mut i: usize = 0;
    assert(s@.take(0) =~= seq![]);
    assert(out@ =~= seq![]);
    while i < chars.len()
        invariant
            chars@ == s@,
            i <= s@.len(),
            out@ == replaced(s@.take(i as int), c, with@),
        decreases s@.len() - i,
    {
        let ghost next = s@.take(i + 1);
        assert(next.drop_last() =~= s@.take(i as int));
        if chars[i] == c {
            out.push_str(with);
        } else {
            out.push(chars[i]);
        }
        assert(out@ =~= replaced(next, c, with@));
        i = i + 1;
    }
    assert(s@.take(i as int) =~= s@);
    out
}

// ---------------------------------------------------------------------------
// Numbers
// ---------------------------------------------------------------------------

/// The digit of value `d` below 16, in lower case.
pub open spec fn digit(d: int) -> char {
    if d == 0 {
        '0'
    } else if d == 1 {
        '1'
    } else if d == 2 {
        '2'
    } else if d == 3 {
        '3'
    } else if d == 4 {
        '4'
    } else if d == 5 {
        '5'
    } else if d == 6 {
        '6'
    } else if d == 7 {
        '7'
    } else if d == 8 {
        '8'
    } else if d == 9 {
        '9'
    } else if d == 10 {
        'a'
    } else if d == 11 {
        'b'
    } else if d == 12 {
        'c'
    } else if d == 13 {
        'd'
    } else if d == 14 {
        'e'
    } else {
        'f'
    }
}

/// The decimal digits of `n`.
pub open spec fn decimal(n: int) -> Seq<char>
    decreases n,
{
    if n < 10 {
        seq![digit(n)]
    } else {
        decimal(n / 10).push(digit(n % 10))
    }
}

pub fn digit_char(d: u32) -> (r: char)
    requires
        d < 16,
    ensures
        r == digit(d as int),
{
    match d {
        0 => '0',
        1 => '1',
        2 => '2',
        3 => '3',
        4 => '4',
        5 => '5',
        6 => '6',
        7 => '7',
        8 => '8',
        9 => '9',
        10 => 'a',
        11 => 'b',
        12 => 'c',
        13 => 'd',
        14 => 'e',
        _ => 'f',
    }
}

/// Append the decimal digits of `n`.
pub fn push_decimal(out: &mut String, n: usize)
    ensures
        final(out)@ == old(out)@ + decimal(n as int),
    decreases n,
{
    if n >= 10 {
        push_decimal(out, n / 10);
    }
    out.push(digit_char((n % 10) as u32));
    assert(out@ =~= old(out)@ + decimal(n as int));
}

// ---------------------------------------------------------------------------
// Trimming
// ---------------------------------------------------------------------------

/// The characters with the Unicode property `White_Space`.
pub open spec fn is_white(c: char) -> bool {
    ||| '\u{9}' <= c <= '\u{d}'
    ||| c == ' '
    ||| c == '\u{85}'
    ||| c == '\u{a0}'
    ||| c == '\u{1680}'
    ||| '\u{2000}' <= c <= '\u{200a}'
    ||| c == '\u{2028}'
    ||| c == '\u{2029}'
    ||| c == '\u{202f}'
    ||| c == '\u{205f}'
    ||| c == '\u{3000}'
}

/// Whether a character is white space.
pub fn is_whitespace(c: char) -> (r: bool)
    ensures
        r == is_white(c),
{
    ('\u{9}' <= c && c <= '\u{d}') || c == ' ' || c == '\u{85}' || c == '\u{a0}' || c == '\u{1680}' || (
    '\u{2000}' <= c && c <= '\u{200a}') || c == '\u{2028}' || c == '\u{2029}' || c == '\u{202f}' || c
        == '\u{205f}' || c == '\u{3000}'
}

/// `s` without its leading white space.
pub open spec fn trimmed_start(s: Seq<char>) -> Seq<char>
    decreases s.len(),
{
    if s.len() > 0 && is_white(s[0]) {
        trimmed_start(s.skip(1))
    } else {
        s
    }
}

/// `s` without its trailing white space.
pub open spec fn trimmed_end(s: Seq<char>) -> Seq<char>
    decreases s.len(),
{
    if s.len() > 0 && is_white(s.last()) {
        trimmed_end(s.drop_last())
    } else {
        s
    }
}

/// `s` without the white space around it.
pub open spec fn trimmed(s: Seq<char>) -> Seq<char> {
    trimmed_end(trimmed_start(s))
}

/// White space in front of a text is trimmed on its own.
pub proof fn lemma_trimmed_start_keeps(a: Seq<char>, b: Seq<char>)
    requires
        b.len() > 0,
        !is_white(b[0]),
    ensures
        trimmed_start(a + b) == trimmed_start(a) + b,
    decreases a.len(),
{
    let all = a + b;
    if a.len() == 0 {
        assert(all =~= b);
        assert(trimmed_start(a) + b =~= b);
    } else {
        assert(all[0] == a[0]);
        assert(all.skip(1) =~= a.skip(1) + b);
        if is_white(a[0]) {
            lemma_trimmed_start_keeps(a.skip(1), b);
        }
    }
}

/// White space behind a text is trimmed on its own.
pub proof fn lemma_trimmed_end_keeps(a: Seq<char>, b: Seq<char>)
    requires
        a.len() > 0,
        !is_white(a.last()),
    ensures
        trimmed_end(a + b) == a + trimmed_end(b),
    decreases b.len(),
{
    let all = a + b;
    if b.len() == 0 {
        assert(all =~= a);
        assert(a + trimmed_end(b) =~= a);
    } else {
        assert(all.last() == b.last());
        assert(all.drop_last() =~= a + b.drop_last());
        if is_white(b.last()) {
            lemma_trimmed_end_keeps(a, b.drop_last());
        }
    }
}

/// Number of leading white-space characters.
pub fn leading_white(chars: &[char]) -> (r: usize)
    ensures
        r <= chars@.len(),
        trimmed_start(chars@) == chars@.skip(r as int),
{
    let mut i: usize = 0;
    assert(chars@.skip(0) =~= chars@);
    while i < chars.len() && is_whitespace(chars[i])
        invariant
            i <= chars@.len(),
            trimmed_start(chars@) == trimmed_start(chars@.skip(i as int)),
        decreases chars@.len() - i,
    {
        assert(chars@.skip(i as int).skip(1) =~= chars@.skip(i + 1));
        i = i + 1;
    }
    i
}

/// End of the characters from `from` on without their trailing white space.
pub fn trailing_white(chars: &[char], from: usize) -> (r: usize)
    requires
        from <= chars@.len(),
    ensures
        from <= r <= chars@.len(),
        trimmed_end(chars@.skip(from as int)) == chars@.subrange(from as int, r as int),
{
    let mut i: usize = chars.len();
    assert(chars@.subrange(from as int, i as int) =~= chars@.skip(from as int));
    while i > from && is_whitespace(chars[i - 1])
        invariant
            from <= i <= chars@.len(),
            trimmed_end(chars@.skip(from as int)) == trimmed_end(
                chars@.subrange(from as int, i as int),
            ),
        decreases i,
    {
        assert(chars@.subrange(from as int, i as int).drop_last() =~= chars@.subrange(
            from as int,
            i - 1,
        ));
        i = i - 1;
    }
    i
}

/// Remove the white space around a text.
pub fn trim(s: &str) -> (r: String)
    ensures
        r@ == trimmed(s@),
{
    let chars = chars_of(s);
    let from = leading_white(chars.as_slice());
    let to = trailing_white(chars.as_slice(), from);
    string_of(chars.as_slice(), from, to)
}

// ---------------------------------------------------------------------------
// Bytes
// ---------------------------------------------------------------------------

/// A position inside the prefix up to `to` is a character boundary of the prefix exactly when it
/// is one of the whole.
pub proof fn lemma_boundary_prefix(s: Seq<u8>, from: int, to: int)
    requires
        vstd::utf8::valid_utf8(s),
        0 <= from <= to <= s.len(),
        vstd::utf8::is_char_boundary(s, from),
        vstd::utf8::is_char_boundary(s, to),
    ensures
        vstd::utf8::valid_utf8(s.subrange(0, to)),
        vstd::utf8::is_char_boundary(s.subrange(0, to), from),
        vstd::utf8::valid_utf8(s.subrange(from, to)),
{
    let head = s.subrange(0, to);
    vstd::utf8::valid_utf8_split(s, to);
    if from < to {
        vstd::utf8::is_char_boundary_iff_not_is_continuation_byte(s, from);
        vstd::utf8::is_char_boundary_iff_not_is_continuation_byte(head, from);
        assert(head[from] == s[from]);
    } else {
        vstd::utf8::is_char_boundary_start_end_of_seq(head);
    }
    vstd::utf8::valid_utf8_split(head, from);
    assert(head.subrange(from, head.len() as int) =~= s.subrange(from, to));
}

/// The text between two character boundaries, given as byte offsets.
pub fn slice_str<'a>(s: &'a str, from: usize, to: usize) -> (r: &'a str)
    requires
        from <= to <= s.spec_bytes().len(),
        vstd::utf8::is_char_boundary(s.spec_bytes(), from as int),
        vstd::utf8::is_char_boundary(s.spec_bytes(), to as int),
    ensures
        r.spec_bytes() == s.spec_bytes().subrange(from as int, to as int),
        r@ == vstd::utf8::decode_utf8(s.spec_bytes().subrange(from as int, to as int)),
{
    proof {
        vstd::utf8::encode_utf8_valid_utf8(s@);
        lemma_boundary_prefix(s.spec_bytes(), from as int, to as int);
    }
    let head = s.split_at(to).0;
    let r = head.split_at(from).1;
    proof {
        assert(r.spec_bytes() =~= s.spec_bytes().subrange(from as int, to as int));
        vstd::utf8::encode_utf8_decode_utf8(r@);
    }
    r
}

/// The encoding of a concatenation is the concatenation of the encodings.
pub proof fn lemma_encode_concat(a: Seq<char>, b: Seq<char>)
    ensures
        vstd::utf8::encode_utf8(a + b) == vstd::utf8::encode_utf8(a) + vstd::utf8::encode_utf8(b),
    decreases a.len(),
{
    if a.len() == 0 {
        assert(a + b =~= b);
        assert(vstd::utf8::encode_utf8(a) =~= seq![]);
        assert(vstd::utf8::encode_utf8(a) + vstd::utf8::encode_utf8(b) =~= vstd::utf8::encode_utf8(
            b,
        ));
    } else {
        lemma_encode_concat(a.drop_first(), b);
        assert((a + b).drop_first() =~= a.drop_first() + b);
        assert(vstd::utf8::encode_utf8(a + b) =~= vstd::utf8::encode_utf8(a)
            + vstd::utf8::encode_utf8(b));
    }
}

// ---------------------------------------------------------------------------
// Order
// ---------------------------------------------------------------------------

/// `a` comes before `b` in lexicographic order by code points, which is that of the bytes.
pub open spec fn precedes(a: Seq<char>, b: Seq<char>) -> bool
    decreases b.len(),
{
    b.len() > 0 && (a.len() == 0 || a[0] < b[0] || (a[0] == b[0] && precedes(a.skip(1), b.skip(1))))
}

/// Whether `a` comes before `b`.
pub fn comes_before(a: &str, b: &str) -> (r: bool)
    ensures
        r == precedes(a@, b@),
{
    let x = chars_of(a);
    let y = chars_of(b);
    let mut i: usize = 0;
    assert(x@.skip(0) =~= x@);
    assert(y@.skip(0) =~= y@);
    while i < x.len() && i < y.len() && x[i] == y[i]
        invariant
            x@ == a@,
            y@ == b@,
            i <= x@.len(),
            i <= y@.len(),
            precedes(a@, b@) == precedes(x@.skip(i as int), y@.skip(i as int)),
        decreases x@.len() - i,
    {
        assert(x@.skip(i as int).skip(1) =~= x@.skip(i + 1));
        assert(y@.skip(i as int).skip(1) =~= y@.skip(i + 1));
        i = i + 1;
    }
    if i == y.len() {
        false
    } else if i == x.len() {
        true
    } else {
        x[i] < y[i]
    }
}

} // verus!
