//! Laws of single tokens: what kind a token has by its first bytes, and where it ends.

use crate::lex_spec;
use crate::lex_spec::{KindView, LexState, TokenView};
use vstd::prelude::*;

verus! {

// ---------------------------------------------------------------------------
// Where tokens come from
// ---------------------------------------------------------------------------

/// A blank, a tab, a line feed, a carriage return or a form feed.
pub open spec fn is_blank_byte(b: u8) -> bool {
    b == 32 || b == 9 || b == 10 || b == 13 || b == 12
}

/// A letter, a digit or an underscore.
pub open spec fn is_identifier_byte(b: u8) -> bool {
    (97 <= b <= 122) || (65 <= b <= 90) || (48 <= b <= 57) || b == 95
}

/// The token is the newline that ends a logical line of a Python text.
pub open spec fn is_line_end(s: Seq<u8>, python: bool, t: TokenView) -> bool {
    python && t.kind is Semicolon && t.end == t.start + 1 && s[t.start] == 10
}

/// The token is what is read at its place.
spec fn is_read(s: Seq<u8>, python: bool, t: TokenView) -> bool {
    exists|logical: bool|
        (t.kind, t.end) == #[trigger] lex_spec::token_at(s, logical, t.start) && (logical
            ==> python) && !is_blank_byte(s[t.start])
}

proof fn lemma_token_origin(s: Seq<u8>, python: bool, st: LexState, k: int)
    requires
        0 <= st.pos <= s.len(),
        0 <= k < lex_spec::lex_from(s, python, st).len(),
        lex_spec::lex_from(s, python, st)[k].start < lex_spec::lex_from(s, python, st)[k].end,
    ensures
        0 <= lex_spec::lex_from(s, python, st)[k].start < s.len(),
        is_line_end(s, python, lex_spec::lex_from(s, python, st)[k]) || is_read(
            s,
            python,
            lex_spec::lex_from(s, python, st)[k],
        ),
    decreases s.len() - st.pos,
{
    if st.pos < s.len() {
        let settled = lex_spec::settle(s, python, st);
        let next = lex_spec::next_state(s, python, settled);
        let lead = lex_spec::lead_tokens(s, python, st);
        let own = lex_spec::own_tokens(s, python, settled);
        let rest = lex_spec::lex_from(s, python, next);
        let all = lex_spec::lex_from(s, python, st);
        lex_spec::lemma_token_at(s, lex_spec::newline_counts(python, st), st.pos);
        assert(all == lead + own + rest);
        if k < lead.len() {
            assert(all[k] == lead[k]);
        } else if k < lead.len() + own.len() {
            assert(all[k] == own[k - lead.len()]);
            let logical = lex_spec::newline_counts(python, st);
            if !lex_spec::is_space(s[st.pos]) {
                assert((all[k].kind, all[k].end) == lex_spec::token_at(s, logical, st.pos));
            }
        } else {
            assert(all[k] == rest[k - lead.len() - own.len()]);
            lemma_token_origin(s, python, next, k - lead.len() - own.len());
        }
    }
}

proof fn lemma_read(s: Seq<u8>, python: bool, k: int)
    requires
        0 <= k < lex_spec::lex(s, python).tokens.len(),
        lex_spec::lex(s, python).tokens[k].start < lex_spec::lex(s, python).tokens[k].end,
    ensures
        0 <= lex_spec::lex(s, python).tokens[k].start < lex_spec::lex(s, python).tokens[k].end
            <= s.len(),
        is_line_end(s, python, lex_spec::lex(s, python).tokens[k]) || is_read(
            s,
            python,
            lex_spec::lex(s, python).tokens[k],
        ),
{
    crate::lex_laws::law_tokens_ordered(s, python);
    lemma_token_origin(s, python, lex_spec::lex_start(python), k);
}

// ---------------------------------------------------------------------------
// Kinds
// ---------------------------------------------------------------------------

/// The bytes from `a` on spell a word that may stand in front of a quote: `R`, `LR`, `uR`, `UR` or
/// `u8R`.
pub open spec fn spells_raw_prefix(s: Seq<u8>, a: int, n: int) -> bool {
    ||| n == 1 && s[a] == 82
    ||| n == 2 && s[a + 1] == 82 && (s[a] == 76 || s[a] == 117 || s[a] == 85)
    ||| n == 3 && s[a] == 117 && s[a + 1] == 56 && s[a + 2] == 82
}

/// The bytes from `a` on spell a prefix of a literal with escapes: `L`, `u`, `U`, `u8`, or Python's
/// `b`, `f` and `r` alone (`R` alone is a raw prefix) or paired with `r`, in either case.
pub open spec fn spells_plain_prefix(s: Seq<u8>, a: int, n: int) -> bool {
    ||| n == 1 && (s[a] == 76 || s[a] == 117 || s[a] == 85 || s[a] == 98 || s[a] == 66 || s[a]
        == 102 || s[a] == 70 || s[a] == 114)
    ||| n == 2 && s[a] == 117 && s[a + 1] == 56
    ||| n == 2 && (s[a] == 114 || s[a] == 82) && (s[a + 1] == 98 || s[a + 1] == 66 || s[a + 1]
        == 102 || s[a + 1] == 70)
    ||| n == 2 && (s[a] == 98 || s[a] == 66 || s[a] == 102 || s[a] == 70) && (s[a + 1] == 114
        || s[a + 1] == 82)
}

/// The identifier from `a` to `e` is a prefix of the literal whose quote stands at `e`.
pub open spec fn is_literal_prefix(s: Seq<u8>, a: int, e: int) -> bool {
    e < s.len() && ((spells_raw_prefix(s, a, e - a) && s[e] == 34) || (spells_plain_prefix(
        s,
        a,
        e - a,
    ) && (s[e] == 34 || s[e] == 39)))
}

/// The bytes from `a` to `e` are an identifier, as long as it gets.
pub open spec fn is_identifier(s: Seq<u8>, a: int, e: int) -> bool {
    &&& a < e <= s.len()
    &&& is_identifier_byte(s[a]) && !(48 <= s[a] <= 57)
    &&& forall|k: int| a <= k < e ==> is_identifier_byte(#[trigger] s[k])
    &&& e == s.len() || !is_identifier_byte(s[e])
}

proof fn lemma_word_end_is(s: Seq<u8>, i: int, e: int)
    requires
        0 <= i <= e <= s.len(),
        forall|k: int| i <= k < e ==> is_identifier_byte(#[trigger] s[k]),
        e == s.len() || !is_identifier_byte(s[e]),
    ensures
        lex_spec::word_end(s, i) == e,
    decreases e - i,
{
    if i < e {
        assert(is_identifier_byte(s[i]));
        lemma_word_end_is(s, i + 1, e);
    }
}

proof fn lemma_word_end_stops(s: Seq<u8>, i: int)
    requires
        0 <= i <= s.len(),
    ensures
        i <= lex_spec::word_end(s, i) <= s.len(),
        forall|k: int| i <= k < lex_spec::word_end(s, i) ==> is_identifier_byte(#[trigger] s[k]),
        lex_spec::word_end(s, i) == s.len() || !is_identifier_byte(s[lex_spec::word_end(s, i)]),
    decreases s.len() - i,
{
    if i < s.len() && is_identifier_byte(s[i]) {
        lemma_word_end_stops(s, i + 1);
    }
}

/// What a text of three characters or less says of a prefix.
proof fn lemma_prefix_words(s: Seq<u8>, a: int, e: int)
    requires
        is_identifier(s, a, e),
        0 <= a,
    ensures
        lex_spec::is_raw_prefix(lex_spec::chars_of(s, a, e)) == spells_raw_prefix(s, a, e - a),
        (lex_spec::is_c_prefix(lex_spec::chars_of(s, a, e)) || lex_spec::is_py_prefix(
            lex_spec::chars_of(s, a, e),
        )) == spells_plain_prefix(s, a, e - a),
{
    let w = lex_spec::chars_of(s, a, e);
    assert forall|k: int| a <= k < e implies (#[trigger] s[k]) < 128 by {
        assert(is_identifier_byte(s[k]));
    }
    reveal_strlit("R");
    reveal_strlit("LR");
    reveal_strlit("uR");
    reveal_strlit("UR");
    reveal_strlit("u8R");
    reveal_strlit("L");
    reveal_strlit("u");
    reveal_strlit("U");
    reveal_strlit("u8");
    reveal_strlit("b");
    reveal_strlit("B");
    reveal_strlit("f");
    reveal_strlit("F");
    reveal_strlit("r");
    reveal_strlit("rb");
    reveal_strlit("rB");
    reveal_strlit("Rb");
    reveal_strlit("RB");
    reveal_strlit("br");
    reveal_strlit("bR");
    reveal_strlit("Br");
    reveal_strlit("BR");
    reveal_strlit("rf");
    reveal_strlit("rF");
    reveal_strlit("Rf");
    reveal_strlit("RF");
    reveal_strlit("fr");
    reveal_strlit("fR");
    reveal_strlit("Fr");
    reveal_strlit("FR");
    lemma_spelled(s, a, e, "R"@);
    lemma_spelled(s, a, e, "LR"@);
    lemma_spelled(s, a, e, "uR"@);
    lemma_spelled(s, a, e, "UR"@);
    lemma_spelled(s, a, e, "u8R"@);
    lemma_spelled(s, a, e, "L"@);
    lemma_spelled(s, a, e, "u"@);
    lemma_spelled(s, a, e, "U"@);
    lemma_spelled(s, a, e, "u8"@);
    lemma_spelled(s, a, e, "b"@);
    lemma_spelled(s, a, e, "B"@);
    lemma_spelled(s, a, e, "f"@);
    lemma_spelled(s, a, e, "F"@);
    lemma_spelled(s, a, e, "r"@);
    lemma_spelled(s, a, e, "rb"@);
    lemma_spelled(s, a, e, "rB"@);
    lemma_spelled(s, a, e, "Rb"@);
    lemma_spelled(s, a, e, "RB"@);
    lemma_spelled(s, a, e, "br"@);
    lemma_spelled(s, a, e, "bR"@);
    lemma_spelled(s, a, e, "Br"@);
    lemma_spelled(s, a, e, "BR"@);
    lemma_spelled(s, a, e, "rf"@);
    lemma_spelled(s, a, e, "rF"@);
    lemma_spelled(s, a, e, "Rf"@);
    lemma_spelled(s, a, e, "RF"@);
    lemma_spelled(s, a, e, "fr"@);
    lemma_spelled(s, a, e, "fR"@);
    lemma_spelled(s, a, e, "Fr"@);
    lemma_spelled(s, a, e, "FR"@);
}

/// An identifier spells a word of up to three characters exactly when its bytes are those.
proof fn lemma_spelled(s: Seq<u8>, a: int, e: int, w: Seq<char>)
    requires
        0 <= a < e <= s.len(),
        forall|k: int| a <= k < e ==> (#[trigger] s[k]) < 128,
        1 <= w.len() <= 3,
    ensures
        (lex_spec::chars_of(s, a, e) == w) == (e - a == w.len() && s[a] as char == w[0] && (w.len()
            > 1 ==> s[a + 1] as char == w[1]) && (w.len() > 2 ==> s[a + 2] as char == w[2])),
{
    let c = lex_spec::chars_of(s, a, e);
    if e - a == w.len() && s[a] as char == w[0] && (w.len() > 1 ==> s[a + 1] as char == w[1]) && (
    w.len() > 2 ==> s[a + 2] as char == w[2]) {
        assert(c =~= w);
    }
    if c == w {
        assert(c[0] == s[a] as char);
        if w.len() > 1 {
            assert(c[1] == s[a + 1] as char);
        }
        if w.len() > 2 {
            assert(c[2] == s[a + 2] as char);
        }
    }
}

/// The kind of a token by its first bytes: braces, parentheses, `;` and `:` are themselves, `/` with
/// another `/` or a `*` is a comment, `#` a directive, a quote or a backtick a literal, an identifier
/// a word unless it is the prefix of a literal, and anything else nothing of note.
pub open spec fn kind_fits(s: Seq<u8>, t: TokenView) -> bool {
    let a = t.start;
    let b = s[a];
    let comment = b == 47 && a + 1 < s.len() && (s[a + 1] == 47 || s[a + 1] == 42);
    let named = is_identifier_byte(b) && !(48 <= b <= 57);
    &&& t.kind is OpenBrace == (b == 123)
    &&& t.kind is CloseBrace == (b == 125)
    &&& t.kind is OpenParen == (b == 40)
    &&& t.kind is CloseParen == (b == 41)
    &&& t.kind is Semicolon == (b == 59)
    &&& t.kind is Colon == (b == 58)
    &&& t.kind is Comment == comment
    &&& t.kind is Preprocessor == (b == 35)
    &&& !named ==> t.kind is StringLiteral == (b == 34 || b == 39 || b == 96)
    &&& named ==> forall|e: int| #[trigger]
        is_identifier(s, a, e) ==> t.kind is StringLiteral == is_literal_prefix(s, a, e)
            && t.kind is Word == !is_literal_prefix(s, a, e)
    &&& t.kind is Word ==> named
    &&& t.kind is Other == (b != 123 && b != 125 && b != 40 && b != 41 && b != 59 && b != 58
        && !comment && b != 35 && b != 34 && b != 39 && b != 96 && !named)
}

proof fn lemma_kind_fits(s: Seq<u8>, logical: bool, t: TokenView)
    requires
        0 <= t.start < s.len(),
        (t.kind, t.end) == lex_spec::token_at(s, logical, t.start),
        !is_blank_byte(s[t.start]),
    ensures
        kind_fits(s, t),
{
    let a = t.start;
    let b = s[a];
    if is_identifier_byte(b) && !(48 <= b <= 57) {
        assert forall|e: int| #[trigger] is_identifier(s, a, e) implies t.kind is StringLiteral
            == is_literal_prefix(s, a, e) && t.kind is Word == !is_literal_prefix(s, a, e) by {
            lemma_word_end_is(s, a + 1, e);
            lemma_prefix_words(s, a, e);
        }
        lemma_word_end_stops(s, a + 1);
        let e = lex_spec::word_end(s, a + 1);
        assert(is_identifier(s, a, e)) by {
            assert forall|k: int| a <= k < e implies is_identifier_byte(#[trigger] s[k]) by {
                if k > a {
                    assert(a + 1 <= k);
                }
            }
        }
    }
}

/// **Law.** A token has the kind that its first bytes give it.
pub proof fn law_token_kind(s: Seq<u8>, python: bool, k: int)
    requires
        0 <= k < lex_spec::lex(s, python).tokens.len(),
        lex_spec::lex(s, python).tokens[k].start < lex_spec::lex(s, python).tokens[k].end,
    ensures
        kind_fits(s, lex_spec::lex(s, python).tokens[k]) || is_line_end(
            s,
            python,
            lex_spec::lex(s, python).tokens[k],
        ),
{
    lemma_read(s, python, k);
    let t = lex_spec::lex(s, python).tokens[k];
    if !is_line_end(s, python, t) {
        let logical = choose|logical: bool|
            (t.kind, t.end) == #[trigger] lex_spec::token_at(s, logical, t.start) && (logical
                ==> python) && !is_blank_byte(s[t.start]);
        lemma_kind_fits(s, logical, t);
    }
}

// ---------------------------------------------------------------------------
// Extents
// ---------------------------------------------------------------------------

/// Number of consecutive backslashes in front of `k`, counted back to `lo`.
pub open spec fn backslashes_before(s: Seq<u8>, lo: int, k: int) -> nat
    decreases k - lo,
{
    if k > lo && s[k - 1] == 92 {
        1 + backslashes_before(s, lo, k - 1)
    } else {
        0
    }
}

/// The byte at `k` is the delimiter, and no backslash escapes it: an even number of them stands in
/// front of it, counted back to the opening delimiter.
pub open spec fn is_bare(s: Seq<u8>, lo: int, k: int, delim: u8) -> bool {
    k < s.len() && s[k] == delim && backslashes_before(s, lo, k) % 2 == 0
}

/// A literal with contents from `lo` on ends at `e`: just after the first bare delimiter, or with
/// the text if there is none.
pub open spec fn ends_at_bare(s: Seq<u8>, lo: int, e: int, delim: u8) -> bool {
    ||| lo < e <= s.len() && is_bare(s, lo, e - 1, delim) && forall|k: int|
        lo <= k < e - 1 ==> !#[trigger] is_bare(s, lo, k, delim)
    ||| e == s.len() && forall|k: int| lo <= k < s.len() ==> !#[trigger] is_bare(s, lo, k, delim)
}

/// Three delimiters stand at `k`, and no backslash escapes the first.
pub open spec fn is_bare_triple(s: Seq<u8>, lo: int, k: int, delim: u8) -> bool {
    is_bare(s, lo, k, delim) && k + 2 < s.len() && s[k + 1] == delim && s[k + 2] == delim
}

/// A triple-quoted literal with contents from `lo` on ends at `e`: just after the first three bare
/// delimiters in a row, or with the text if there are none.
pub open spec fn ends_at_triple(s: Seq<u8>, lo: int, e: int, delim: u8) -> bool {
    ||| lo + 3 <= e <= s.len() && is_bare_triple(s, lo, e - 3, delim) && forall|k: int|
        lo <= k < e - 3 ==> !#[trigger] is_bare_triple(s, lo, k, delim)
    ||| e == s.len() && forall|k: int|
        lo <= k < s.len() ==> !#[trigger] is_bare_triple(s, lo, k, delim)
}

/// Extent of a literal whose opening quote stands at `o`.
pub open spec fn quoted_extent(s: Seq<u8>, o: int, e: int) -> bool {
    let d = s[o];
    if o + 1 < s.len() && s[o + 1] == d {
        if o + 2 < s.len() && s[o + 2] == d {
            ends_at_triple(s, o + 3, e, d)
        } else {
            e == o + 2
        }
    } else {
        ends_at_bare(s, o + 1, e, d)
    }
}

proof fn lemma_string_end_bare(s: Seq<u8>, lo: int, i: int, delim: u8)
    requires
        0 <= lo <= i <= s.len() + 1,
        i <= s.len() ==> backslashes_before(s, lo, i) % 2 == 0,
        delim != 92,
        forall|k: int| lo <= k < i ==> !#[trigger] is_bare(s, lo, k, delim),
        lo <= s.len(),
    ensures
        ends_at_bare(s, lo, lex_spec::string_end(s, i, delim), delim),
    decreases s.len() + 1 - i,
{
    if i < s.len() {
        if s[i] == 92 {
            assert(backslashes_before(s, lo, i + 1) == 1 + backslashes_before(s, lo, i));
            if i + 1 < s.len() {
                if s[i + 1] == 92 {
                    assert(backslashes_before(s, lo, i + 2) == 1 + backslashes_before(
                        s,
                        lo,
                        i + 1,
                    ));
                } else {
                    assert(backslashes_before(s, lo, i + 2) == 0);
                }
            }
            assert(!is_bare(s, lo, i, delim));
            assert(!is_bare(s, lo, i + 1, delim));
            lemma_string_end_bare(s, lo, i + 2, delim);
        } else if s[i] == delim {
            assert(is_bare(s, lo, i, delim));
        } else {
            assert(backslashes_before(s, lo, i + 1) == 0);
            assert(!is_bare(s, lo, i, delim));
            lemma_string_end_bare(s, lo, i + 1, delim);
        }
    }
}

proof fn lemma_triple_end_bare(s: Seq<u8>, lo: int, i: int, delim: u8)
    requires
        0 <= lo <= i <= s.len() + 1,
        i <= s.len() ==> backslashes_before(s, lo, i) % 2 == 0,
        delim != 92,
        forall|k: int| lo <= k < i ==> !#[trigger] is_bare_triple(s, lo, k, delim),
        lo <= s.len(),
    ensures
        ends_at_triple(s, lo, lex_spec::triple_end(s, i, delim), delim),
    decreases s.len() + 1 - i,
{
    if i < s.len() {
        if s[i] == 92 {
            assert(backslashes_before(s, lo, i + 1) == 1 + backslashes_before(s, lo, i));
            if i + 1 < s.len() {
                if s[i + 1] == 92 {
                    assert(backslashes_before(s, lo, i + 2) == 1 + backslashes_before(
                        s,
                        lo,
                        i + 1,
                    ));
                } else {
                    assert(backslashes_before(s, lo, i + 2) == 0);
                }
            }
            assert(!is_bare_triple(s, lo, i, delim));
            assert(!is_bare_triple(s, lo, i + 1, delim));
            lemma_triple_end_bare(s, lo, i + 2, delim);
        } else if s[i] == delim && i + 1 < s.len() && s[i + 1] == delim {
            if i + 2 < s.len() && s[i + 2] == delim {
                assert(is_bare_triple(s, lo, i, delim));
            } else {
                assert(backslashes_before(s, lo, i + 1) == 0);
                assert(backslashes_before(s, lo, i + 2) == 0);
                assert(!is_bare_triple(s, lo, i, delim));
                assert(!is_bare_triple(s, lo, i + 1, delim));
                lemma_triple_end_bare(s, lo, i + 2, delim);
            }
        } else {
            assert(backslashes_before(s, lo, i + 1) == 0);
            assert(!is_bare_triple(s, lo, i, delim));
            lemma_triple_end_bare(s, lo, i + 1, delim);
        }
    }
}

proof fn lemma_literal_extent(s: Seq<u8>, o: int)
    requires
        0 <= o < s.len(),
        s[o] != 92,
    ensures
        quoted_extent(s, o, lex_spec::literal_end(s, o + 1, s[o])),
{
    let d = s[o];
    lemma_string_end_bare(s, o + 1, o + 1, d);
    if o + 2 < s.len() {
        lemma_triple_end_bare(s, o + 3, o + 3, d);
    }
}

/// `)`, the bytes from `d` to `p`, and a quote stand at `k`.
pub open spec fn closes_raw(s: Seq<u8>, d: int, p: int, k: int) -> bool {
    &&& 0 <= k && k + (p - d) + 2 <= s.len()
    &&& s[k] == 41 && s[k + (p - d) + 1] == 34
    &&& forall|j: int| 0 <= j < p - d ==> s[k + 1 + j] == #[trigger] s[d + j]
}

/// Extent of a raw literal whose opening quote stands at `o`: what stands between the quote and the
/// first `(` is its delimiter, and it ends just after the first `)` that the delimiter and a quote
/// follow, or with the text if there is none.
pub open spec fn raw_extent(s: Seq<u8>, o: int, e: int) -> bool {
    forall|p: int|
        o < p <= s.len() && (p == s.len() || s[p] == 40) && (forall|j: int|
            o < j < p ==> #[trigger] s[j] != 40) ==> #[trigger] ends_raw(s, o + 1, p, e)
}

/// A raw literal with its delimiter from `d` to the parenthesis at `p` ends at `e`.
pub open spec fn ends_raw(s: Seq<u8>, d: int, p: int, e: int) -> bool {
    ||| p < e - (p - d) - 2 + 1 && e <= s.len() && closes_raw(s, d, p, e - (p - d) - 2)
        && forall|k: int| p < k < e - (p - d) - 2 ==> !#[trigger] closes_raw(s, d, p, k)
    ||| e == s.len() && forall|k: int| p < k < s.len() ==> !#[trigger] closes_raw(s, d, p, k)
}

proof fn lemma_closes_raw(s: Seq<u8>, d: int, p: int, k: int, tail: Seq<u8>)
    requires
        0 <= d <= p <= s.len(),
        0 <= k < s.len(),
        tail == s.subrange(d, p).push(34u8),
    ensures
        closes_raw(s, d, p, k) == (s[k] == 41 && lex_spec::occurs_at(s, k + 1, tail)),
{
    let n = p - d;
    assert(tail.len() == n + 1);
    if lex_spec::occurs_at(s, k + 1, tail) {
        let part = s.subrange(k + 1, k + 1 + tail.len());
        assert(part[n] == 34u8);
        assert forall|j: int| 0 <= j < n implies s[k + 1 + j] == #[trigger] s[d + j] by {
            assert(part[j] == tail[j]);
        }
    }
    if closes_raw(s, d, p, k) {
        let part = s.subrange(k + 1, k + 1 + tail.len());
        assert forall|j: int| 0 <= j < tail.len() implies part[j] == tail[j] by {
            if j < n {
                assert(s[k + 1 + j] == s[d + j]);
            }
        }
        assert(part =~= tail);
    }
}

proof fn lemma_raw_close_first(s: Seq<u8>, d: int, p: int, i: int, tail: Seq<u8>)
    requires
        0 <= d <= p < i <= s.len() + 1,
        p <= s.len(),
        tail == s.subrange(d, p).push(34u8),
        forall|k: int| p < k < i ==> !#[trigger] closes_raw(s, d, p, k),
    ensures
        ends_raw(s, d, p, lex_spec::raw_close(s, i, tail)),
    decreases s.len() + 1 - i,
{
    if i < s.len() {
        lemma_closes_raw(s, d, p, i, tail);
        if !closes_raw(s, d, p, i) {
            lemma_raw_close_first(s, d, p, i + 1, tail);
        }
    }
}

proof fn lemma_raw_extent(s: Seq<u8>, o: int)
    requires
        0 <= o < s.len(),
    ensures
        raw_extent(s, o, lex_spec::raw_end(s, o + 1)),
{
    let e = lex_spec::raw_end(s, o + 1);
    lex_spec::lemma_index_from(s, o + 1, 40u8);
    assert forall|p: int|
        o < p <= s.len() && (p == s.len() || s[p] == 40) && (forall|j: int|
            o < j < p ==> #[trigger] s[j] != 40) implies #[trigger] ends_raw(s, o + 1, p, e) by {
        let q = lex_spec::index_from(s, o + 1, 40u8);
        assert(p == q) by {
            if q < p {
                assert(s[q] != 40);
            } else if p < q {
                assert(s[p] != 40);
            }
        }
        lemma_raw_close_first(s, o + 1, p, p + 1, s.subrange(o + 1, p).push(34u8));
    }
}

/// `*/` stands at `k`.
pub open spec fn closes_comment(s: Seq<u8>, k: int) -> bool {
    k + 1 < s.len() && s[k] == 42 && s[k + 1] == 47
}

proof fn lemma_block_end_first(s: Seq<u8>, lo: int, i: int)
    requires
        0 <= lo <= i <= s.len(),
        forall|k: int| lo <= k < i ==> !#[trigger] closes_comment(s, k),
    ensures
        ({
            let e = lex_spec::block_end(s, i);
            ||| lo + 2 <= e <= s.len() && closes_comment(s, e - 2) && forall|k: int|
                lo <= k < e - 2 ==> !#[trigger] closes_comment(s, k)
            ||| e == s.len() && forall|k: int|
                lo <= k < s.len() ==> !#[trigger] closes_comment(s, k)
        }),
    decreases s.len() - i,
{
    if i < s.len() {
        if closes_comment(s, i) {
        } else {
            lemma_block_end_first(s, lo, i + 1);
        }
    }
}

/// A newline stands between the positions.
pub open spec fn has_newline(s: Seq<u8>, from: int, to: int) -> bool {
    exists|k: int| from <= k < to && #[trigger] s[k] == 10
}

/// A backslash stands in front of the newline at `k`, or in front of the carriage return before it.
pub open spec fn continues_over(s: Seq<u8>, k: int) -> bool {
    s[k - 1] == 92 || (s[k - 1] == 13 && s[k - 2] == 92)
}

proof fn lemma_directive_stop_bare(s: Seq<u8>, i: int)
    requires
        1 <= i <= s.len(),
        i < s.len() ==> !(s[i - 1] == 92 && (s[i] == 10 || s[i] == 13)),
        i < s.len() ==> !(s[i] == 10 && s[i - 1] == 13 && i >= 2 && s[i - 2] == 92),
    ensures
        lex_spec::directive_stop(s, i) < s.len() ==> s[lex_spec::directive_stop(s, i) - 1] != 92
            && !(s[lex_spec::directive_stop(s, i) - 1] == 13 && lex_spec::directive_stop(s, i) >= 2
            && s[lex_spec::directive_stop(s, i) - 2] == 92),
    decreases s.len() - i,
{
    if i < s.len() {
        if s[i] == 92 {
            lemma_directive_stop_bare(s, lex_spec::past_line_break(s, i + 1));
        } else if s[i] != 10 {
            lemma_directive_stop_bare(s, i + 1);
        }
    }
}

/// Extent of a token by its kind.
pub open spec fn extent_fits(s: Seq<u8>, python: bool, t: TokenView) -> bool {
    let a = t.start;
    let e = t.end;
    match t.kind {
        // An identifier is taken whole, and is the word that its bytes spell.
        KindView::Word(w) => is_identifier(s, a, e) && w.len() == e - a && forall|k: int|
            0 <= k < w.len() ==> #[trigger] w[k] == s[a + k] as char,
        KindView::Comment => if s[a + 1] == 47 {
            // A line comment runs to its newline, which it takes in but for a line of Python.
            &&& !has_newline(s, a, e - 1)
            &&& e == s.len() || s[e - 1] == 10 || (python && s[e] == 10)
            &&& !python && e < s.len() ==> s[e - 1] == 10
        } else {
            // A block comment ends behind the first `*/`.
            ||| a + 4 <= e <= s.len() && closes_comment(s, e - 2) && forall|k: int|
                a + 2 <= k < e - 2 ==> !#[trigger] closes_comment(s, k)
            ||| e == s.len() && forall|k: int|
                a + 2 <= k < s.len() ==> !#[trigger] closes_comment(s, k)
        },
        KindView::StringLiteral => if s[a] == 96 {
            // A backtick literal ends behind the next backtick.
            &&& forall|k: int| a < k < e - 1 ==> #[trigger] s[k] != 96
            &&& e == s.len() || (a + 1 < e && s[e - 1] == 96)
        } else if s[a] == 34 || s[a] == 39 {
            quoted_extent(s, a, e)
        } else {
            // The literal starts behind its prefix.
            forall|o: int| #[trigger]
                is_identifier(s, a, o) ==> if spells_raw_prefix(s, a, o - a) {
                    raw_extent(s, o, e)
                } else {
                    quoted_extent(s, o, e)
                }
        },
        KindView::Preprocessor => {
            // A directive runs to the first newline that no backslash continues.
            &&& forall|k: int|
                a < k < e - 1 && #[trigger] s[k] == 10 ==> continues_over(s, k)
            &&& e == s.len() || (s[e - 1] == 10 && !continues_over(s, e - 1)) || (python && s[e]
                == 10 && !continues_over(s, e))
            &&& !python && e < s.len() ==> s[e - 1] == 10
        },
        _ => e == a + 1,
    }
}

proof fn lemma_extent_fits(s: Seq<u8>, python: bool, logical: bool, t: TokenView)
    requires
        0 <= t.start < s.len(),
        (t.kind, t.end) == lex_spec::token_at(s, logical, t.start),
        logical ==> python,
        !is_blank_byte(s[t.start]),
    ensures
        extent_fits(s, python, t),
{
    let a = t.start;
    let e = t.end;
    let b = s[a];
    lemma_kind_fits(s, logical, t);
    lex_spec::lemma_token_at(s, logical, a);
    if b == 47 && t.kind is Comment {
        if s[a + 1] == 47 {
            lex_spec::lemma_index_from(s, a + 2, 10u8);
        } else {
            lemma_block_end_first(s, a + 2, a + 2);
        }
    } else if b == 96 {
        lex_spec::lemma_index_from(s, a + 1, 96u8);
    } else if b == 34 || b == 39 {
        lemma_literal_extent(s, a);
    } else if b == 35 {
        lex_spec::lemma_directive_stop(s, a + 1);
        lemma_directive_stop_bare(s, a + 1);
        assert forall|k: int| a < k < e - 1 && #[trigger] s[k] == 10 implies continues_over(
            s,
            k,
        ) by {
            assert(lex_spec::is_continued(s, k));
        }
    } else if is_identifier_byte(b) && !(48 <= b <= 57) {
        lemma_word_end_stops(s, a + 1);
        let o = lex_spec::word_end(s, a + 1);
        assert(is_identifier(s, a, o)) by {
            assert forall|k: int| a <= k < o implies is_identifier_byte(#[trigger] s[k]) by {
                if k > a {
                    assert(a + 1 <= k);
                }
            }
        }
        lemma_prefix_words(s, a, o);
        if t.kind is StringLiteral {
            assert forall|q: int| #[trigger] is_identifier(s, a, q) implies if spells_raw_prefix(
                s,
                a,
                q - a,
            ) {
                raw_extent(s, q, e)
            } else {
                quoted_extent(s, q, e)
            } by {
                lemma_word_end_is(s, a + 1, q);
                lemma_raw_extent(s, q);
                lemma_literal_extent(s, q);
            }
        }
    }
}

/// **Law.** A token ends where its kind says.
///
/// An identifier is taken whole.  A line comment runs to the end of its line, a block comment to the
/// first `*/`, a backtick literal to the next backtick, and a directive to the first newline that no
/// backslash continues.  A quoted literal ends behind the first delimiter in front of which an even
/// number of backslashes stands, a triple-quoted one behind the first three of them, and a raw one
/// behind the first `)` that its own delimiter and a quote follow.  Any other token is one byte.
pub proof fn law_token_extent(s: Seq<u8>, python: bool, k: int)
    requires
        0 <= k < lex_spec::lex(s, python).tokens.len(),
        lex_spec::lex(s, python).tokens[k].start < lex_spec::lex(s, python).tokens[k].end,
    ensures
        extent_fits(s, python, lex_spec::lex(s, python).tokens[k]),
{
    lemma_read(s, python, k);
    let t = lex_spec::lex(s, python).tokens[k];
    if !is_line_end(s, python, t) {
        let logical = choose|logical: bool|
            (t.kind, t.end) == #[trigger] lex_spec::token_at(s, logical, t.start) && (logical
                ==> python) && !is_blank_byte(s[t.start]);
        lemma_extent_fits(s, python, logical, t);
    }
}

// ---------------------------------------------------------------------------
// What the tokens leave out, and where their ranges and lines come from
// ---------------------------------------------------------------------------

/// **Law.** What lies in no token is white space.
pub proof fn law_only_blanks_left_out(s: Seq<u8>, python: bool, p: int)
    requires
        0 <= p < s.len(),
        !is_blank_byte(s[p]),
    ensures
        exists|k: int|
            0 <= k < lex_spec::lex(s, python).tokens.len() && (#[trigger] lex_spec::lex(
                s,
                python,
            ).tokens[k]).start <= p < lex_spec::lex(s, python).tokens[k].end,
{
    crate::lex_laws::law_every_byte_covered(s, python, p);
    let tokens = lex_spec::lex(s, python).tokens;
    let k = choose|k: int|
        0 <= k < tokens.len() && (#[trigger] tokens[k]).start <= p < tokens[k].end;
    assert(lex_spec::lex(s, python).tokens[k].start <= p);
}

proof fn lemma_token_ranges_complete(tokens: Seq<TokenView>, comments: bool, k: int)
    requires
        0 <= k < tokens.len(),
        if comments {
            tokens[k].kind is Comment
        } else {
            tokens[k].kind is StringLiteral
        },
    ensures
        lex_spec::token_ranges(tokens, comments).contains((tokens[k].start, tokens[k].end)),
    decreases tokens.len(),
{
    let init = tokens.drop_last();
    let rest = lex_spec::token_ranges(init, comments);
    let all = lex_spec::token_ranges(tokens, comments);
    if k < init.len() {
        assert(init[k] == tokens[k]);
        lemma_token_ranges_complete(init, comments, k);
        let i = choose|i: int|
            0 <= i < rest.len() && rest[i] == (tokens[k].start, tokens[k].end);
        assert(all[i] == rest[i]);
    } else {
        assert(all[all.len() - 1] == (tokens[k].start, tokens[k].end));
    }
}

/// **Law.** The comment ranges are the extents of the comment tokens, and the string ranges those of
/// the literals: all of them, and no others.
pub proof fn law_ranges_are_tokens(s: Seq<u8>, python: bool, r: (int, int))
    ensures
        lex_spec::lex(s, python).comments.contains(r) == exists|k: int|
            0 <= k < lex_spec::lex(s, python).tokens.len() && (#[trigger] lex_spec::lex(
                s,
                python,
            ).tokens[k]).kind is Comment && lex_spec::lex(s, python).tokens[k].start == r.0
                && lex_spec::lex(s, python).tokens[k].end == r.1,
        lex_spec::lex(s, python).strings.contains(r) == exists|k: int|
            0 <= k < lex_spec::lex(s, python).tokens.len() && (#[trigger] lex_spec::lex(
                s,
                python,
            ).tokens[k]).kind is StringLiteral && lex_spec::lex(s, python).tokens[k].start == r.0
                && lex_spec::lex(s, python).tokens[k].end == r.1,
{
    let tokens = lex_spec::lex(s, python).tokens;
    crate::lex_laws::law_tokens_ordered(s, python);
    crate::lex_laws::lemma_token_ranges(tokens, true, s.len() as int);
    crate::lex_laws::lemma_token_ranges(tokens, false, s.len() as int);
    let cs = lex_spec::lex(s, python).comments;
    let ts = lex_spec::lex(s, python).strings;
    assert(cs == lex_spec::token_ranges(tokens, true));
    assert(ts == lex_spec::token_ranges(tokens, false));
    if cs.contains(r) {
        let i = choose|i: int| 0 <= i < cs.len() && cs[i] == r;
        assert(lex_spec::token_ranges(tokens, true)[i] == r);
    }
    if ts.contains(r) {
        let i = choose|i: int| 0 <= i < ts.len() && ts[i] == r;
        assert(lex_spec::token_ranges(tokens, false)[i] == r);
    }
    if exists|k: int|
        0 <= k < tokens.len() && (#[trigger] tokens[k]).kind is Comment && tokens[k].start == r.0
            && tokens[k].end == r.1 {
        let k = choose|k: int|
            0 <= k < tokens.len() && (#[trigger] tokens[k]).kind is Comment && tokens[k].start
                == r.0 && tokens[k].end == r.1;
        lemma_token_ranges_complete(tokens, true, k);
    }
    if exists|k: int|
        0 <= k < tokens.len() && (#[trigger] tokens[k]).kind is StringLiteral && tokens[k].start
            == r.0 && tokens[k].end == r.1 {
        let k = choose|k: int|
            0 <= k < tokens.len() && (#[trigger] tokens[k]).kind is StringLiteral
                && tokens[k].start == r.0 && tokens[k].end == r.1;
        lemma_token_ranges_complete(tokens, false, k);
    }
}

/// **Law.** Lines are numbered from 1, and each newline starts the next one.
pub proof fn law_line_numbers(s: Seq<u8>, p: int)
    requires
        0 <= p < s.len(),
    ensures
        lex_spec::line_at(s, 0) == 1,
        s[p] == 10 ==> lex_spec::line_at(s, p + 1) == lex_spec::line_at(s, p) + 1,
        s[p] != 10 ==> lex_spec::line_at(s, p + 1) == lex_spec::line_at(s, p),
{
}

} // verus!
