//! Laws of the text functions.

use crate::text;
use vstd::prelude::*;

verus! {

// ---------------------------------------------------------------------------
// Joining and replacing
// ---------------------------------------------------------------------------

/// **Law.** Joining nothing gives nothing, and joining one part gives that part.
pub proof fn law_joined_one(part: Seq<char>, sep: Seq<char>)
    ensures
        text::joined(seq![], sep).len() == 0,
        text::joined(seq![part], sep) == part,
{
}

/// **Law.** Joining two lists of parts gives what each of them gives, with the separator between.
pub proof fn law_joined_concat(a: Seq<Seq<char>>, b: Seq<Seq<char>>, sep: Seq<char>)
    requires
        a.len() > 0,
        b.len() > 0,
    ensures
        text::joined(a + b, sep) == text::joined(a, sep) + sep + text::joined(b, sep),
    decreases b.len(),
{
    let all = a + b;
    assert(all.last() == b.last());
    assert(all.drop_last() =~= a + b.drop_last());
    if b.len() == 1 {
        assert(all.drop_last() =~= a);
        assert(b.last() == b[0]);
    } else {
        law_joined_concat(a, b.drop_last(), sep);
        assert(text::joined(all, sep) =~= text::joined(a, sep) + sep + text::joined(b, sep));
    }
}

/// **Law.** No piece of a text holds the separator.
pub proof fn law_pieces_hold_no_separator(s: Seq<char>, sep: Seq<char>, i: int, k: int)
    requires
        sep.len() > 0,
        0 <= i < text::pieces(s, sep).len(),
        0 <= k,
        k + sep.len() <= text::pieces(s, sep)[i].len(),
    ensures
        text::pieces(s, sep)[i].subrange(k, k + sep.len()) != sep,
{
    lemma_pieces_hold_no_separator(s, sep, 0, i, k);
}

proof fn lemma_pieces_hold_no_separator(s: Seq<char>, sep: Seq<char>, start: int, i: int, k: int)
    requires
        sep.len() > 0,
        0 <= start <= s.len(),
        0 <= i < text::pieces_from(s, sep, start).len(),
        0 <= k,
        k + sep.len() <= text::pieces_from(s, sep, start)[i].len(),
    ensures
        text::pieces_from(s, sep, start)[i].subrange(k, k + sep.len()) != sep,
    decreases s.len() - start,
{
    let e = text::find_sep(s, sep, start);
    text::lemma_find_sep(s, sep, start);
    if i == 0 {
        let piece = text::pieces_from(s, sep, start)[0];
        assert(!text::sep_at(s, sep, start + k));
        assert(piece.subrange(k, k + sep.len()) =~= s.subrange(
            start + k,
            start + k + sep.len(),
        ));
    } else {
        lemma_pieces_hold_no_separator(s, sep, e + sep.len(), i - 1, k);
    }
}

/// **Law.** Replacing works character by character: it turns the character into its replacement and
/// keeps every other one.
pub proof fn law_replaced(a: Seq<char>, b: Seq<char>, c: char, d: char, with: Seq<char>)
    ensures
        text::replaced(seq![], c, with).len() == 0,
        text::replaced(seq![c], c, with) == with,
        d != c ==> text::replaced(seq![d], c, with) == seq![d],
        text::replaced(a + b, c, with) == text::replaced(a, c, with) + text::replaced(b, c, with),
    decreases b.len(),
{
    reveal_with_fuel(text::replaced, 2);
    assert(seq![c].drop_last() =~= seq![]);
    assert(seq![d].drop_last() =~= seq![]);
    assert(text::replaced(seq![c], c, with) =~= with);
    if d != c {
        assert(text::replaced(seq![d], c, with) =~= seq![d]);
    }
    if b.len() == 0 {
        assert(a + b =~= a);
        assert(text::replaced(a, c, with) + text::replaced(b, c, with) =~= text::replaced(
            a,
            c,
            with,
        ));
    } else {
        law_replaced(a, b.drop_last(), c, d, with);
        assert((a + b).drop_last() =~= a + b.drop_last());
        assert(text::replaced(a + b, c, with) =~= text::replaced(a, c, with) + text::replaced(
            b,
            c,
            with,
        ));
    }
}

// ---------------------------------------------------------------------------
// Numbers
// ---------------------------------------------------------------------------

/// The value of a digit: `0` to `9`, and `a` to `f` from ten on.
pub open spec fn digit_value(c: char) -> int {
    if (c as u32) < 58 {
        (c as u32) - 48
    } else {
        (c as u32) - 87
    }
}

/// **Law.** Every number below 16 has the digit of its value, in lower case.
pub proof fn law_digit(d: int)
    requires
        0 <= d < 16,
    ensures
        digit_value(text::digit(d)) == d,
        d < 10 ==> 48 <= (text::digit(d) as u32) < 58,
        d >= 10 ==> 97 <= (text::digit(d) as u32) < 103,
{
}

/// The number that decimal digits stand for.
pub open spec fn number_value(s: Seq<char>) -> int
    decreases s.len(),
{
    if s.len() == 0 {
        0
    } else {
        number_value(s.drop_last()) * 10 + ((s.last() as u32) - 48)
    }
}

/// **Law.** The decimal text of a number consists of digits, reads as that number, and has no leading
/// zero.
pub proof fn law_decimal(n: int)
    requires
        n >= 0,
    ensures
        number_value(text::decimal(n)) == n,
        text::decimal(n).len() >= 1,
        forall|i: int|
            0 <= i < text::decimal(n).len() ==> 48 <= (#[trigger] text::decimal(n)[i] as u32) < 58,
        n > 0 ==> (text::decimal(n)[0] as u32) != 48,
        n == 0 ==> text::decimal(n).len() == 1,
    decreases n,
{
    reveal_with_fuel(number_value, 2);
    if n < 10 {
        law_digit(n);
        let t = text::decimal(n);
        assert(t.drop_last() =~= seq![]);
        assert(t.last() == text::digit(n));
    } else {
        law_decimal(n / 10);
        law_digit(n % 10);
        let t = text::decimal(n);
        assert(t.drop_last() =~= text::decimal(n / 10));
        assert(t[0] == text::decimal(n / 10)[0]);
        assert forall|i: int| 0 <= i < t.len() implies 48 <= (#[trigger] t[i] as u32) < 58 by {
            if i < t.len() - 1 {
                assert(t[i] == text::decimal(n / 10)[i]);
            }
        }
    }
}

// ---------------------------------------------------------------------------
// White space
// ---------------------------------------------------------------------------

/// The code point is that of a white-space character.
pub open spec fn is_blank(code: u32) -> bool {
    ||| 9 <= code <= 13
    ||| code == 32
    ||| code == 0x85
    ||| code == 0xa0
    ||| code == 0x1680
    ||| 0x2000 <= code <= 0x200a
    ||| code == 0x2028
    ||| code == 0x2029
    ||| code == 0x202f
    ||| code == 0x205f
    ||| code == 0x3000
}

/// **Law.** White space is told by the code point.
pub proof fn law_is_white(c: char)
    ensures
        text::is_white(c) == is_blank(c as u32),
{
}

/// **Law.** Trimming takes white space from both ends of a text, all of it and nothing else.
pub proof fn law_trimmed(s: Seq<char>) -> (ab: (int, int))
    ensures
        0 <= ab.0 <= ab.1 <= s.len(),
        text::trimmed(s) == s.subrange(ab.0, ab.1),
        forall|i: int|
            0 <= i < ab.0 || ab.1 <= i < s.len() ==> is_blank(#[trigger] s[i] as u32),
        ab.0 < ab.1 ==> !is_blank(s[ab.0] as u32) && !is_blank(s[ab.1 - 1] as u32),
{
    let a = lemma_trimmed_start(s);
    let rest = s.skip(a);
    let b = lemma_trimmed_end(rest);
    assert(rest.take(b) =~= s.subrange(a, a + b));
    assert forall|i: int| 0 <= i < a || a + b <= i < s.len() implies is_blank(
        #[trigger] s[i] as u32,
    ) by {
        if i >= a {
            assert(rest[i - a] == s[i]);
        }
    }
    (a, a + b)
}

proof fn lemma_trimmed_start(s: Seq<char>) -> (a: int)
    ensures
        0 <= a <= s.len(),
        text::trimmed_start(s) == s.skip(a),
        forall|i: int| 0 <= i < a ==> is_blank(#[trigger] s[i] as u32),
        a < s.len() ==> !is_blank(s[a] as u32),
    decreases s.len(),
{
    if s.len() > 0 && text::is_white(s[0]) {
        law_is_white(s[0]);
        let a = lemma_trimmed_start(s.skip(1));
        assert(s.skip(1).skip(a) =~= s.skip(a + 1));
        assert forall|i: int| 0 <= i < a + 1 implies is_blank(#[trigger] s[i] as u32) by {
            if i > 0 {
                assert(s.skip(1)[i - 1] == s[i]);
            }
        }
        a + 1
    } else {
        if s.len() > 0 {
            law_is_white(s[0]);
        }
        assert(s.skip(0) =~= s);
        0
    }
}

proof fn lemma_trimmed_end(s: Seq<char>) -> (b: int)
    ensures
        0 <= b <= s.len(),
        text::trimmed_end(s) == s.take(b),
        forall|i: int| b <= i < s.len() ==> is_blank(#[trigger] s[i] as u32),
        b > 0 ==> !is_blank(s[b - 1] as u32),
    decreases s.len(),
{
    if s.len() > 0 && text::is_white(s.last()) {
        law_is_white(s.last());
        let b = lemma_trimmed_end(s.drop_last());
        assert(s.drop_last().take(b) =~= s.take(b));
        assert forall|i: int| b <= i < s.len() implies is_blank(#[trigger] s[i] as u32) by {
            if i < s.len() - 1 {
                assert(s.drop_last()[i] == s[i]);
            }
        }
        b
    } else {
        if s.len() > 0 {
            law_is_white(s.last());
        }
        assert(s.take(s.len() as int) =~= s);
        s.len() as int
    }
}

// ---------------------------------------------------------------------------
// Order
// ---------------------------------------------------------------------------

proof fn lemma_char_order(c: char, d: char)
    ensures
        (c < d) == ((c as u32) < (d as u32)),
{
}

/// The texts are the same up to `i`, where the first one ends or has the smaller character.
pub open spec fn differs_at(a: Seq<char>, b: Seq<char>, i: int) -> bool {
    &&& 0 <= i <= a.len()
    &&& i < b.len()
    &&& a.take(i) == b.take(i)
    &&& i == a.len() || (a[i] as u32) < (b[i] as u32)
}

/// **Law.** A text comes before another one exactly when it is a proper beginning of it, or has the
/// smaller character where the two first differ.
pub proof fn law_precedes(a: Seq<char>, b: Seq<char>)
    ensures
        text::precedes(a, b) == exists|i: int| #[trigger] differs_at(a, b, i),
    decreases b.len(),
{
    if b.len() > 0 && a.len() > 0 {
        lemma_char_order(a[0], b[0]);
    }
    if b.len() > 0 && a.len() > 0 && a[0] == b[0] {
        law_precedes(a.skip(1), b.skip(1));
        if text::precedes(a, b) {
            let i = choose|i: int| #[trigger] differs_at(a.skip(1), b.skip(1), i);
            assert(a.take(i + 1) =~= seq![a[0]] + a.skip(1).take(i));
            assert(b.take(i + 1) =~= seq![b[0]] + b.skip(1).take(i));
            assert(differs_at(a, b, i + 1));
        }
        if exists|i: int| #[trigger] differs_at(a, b, i) {
            let i = choose|i: int| #[trigger] differs_at(a, b, i);
            assert(a.skip(1).take(i - 1) =~= a.take(i).skip(1));
            assert(b.skip(1).take(i - 1) =~= b.take(i).skip(1));
            assert(differs_at(a.skip(1), b.skip(1), i - 1));
        }
    } else {
        if text::precedes(a, b) {
            assert(a.take(0) =~= b.take(0));
            assert(differs_at(a, b, 0));
        }
        if exists|i: int| #[trigger] differs_at(a, b, i) {
            let i = choose|i: int| #[trigger] differs_at(a, b, i);
            if i > 0 {
                assert(a.take(i)[0] == b.take(i)[0]);
            }
        }
    }
}

} // verus!
