//! Laws of tokenization: order, coverage, line numbers and balance.

use crate::lex_spec;
use crate::lex_spec::{LexState, TokenView};
use vstd::prelude::*;

verus! {

/// `tokens` lie one after the other between `lo` and `hi`; only indentation tokens are empty.
pub open spec fn tokens_ordered(tokens: Seq<TokenView>, lo: int, hi: int) -> bool {
    &&& forall|i: int|
        #![trigger tokens[i]]
        0 <= i < tokens.len() ==> lo <= tokens[i].start <= tokens[i].end <= hi && (tokens[i].start
            < tokens[i].end || tokens[i].kind is Indent || tokens[i].kind is Dedent)
    &&& forall|i: int, j: int|
        #![trigger tokens[i], tokens[j]]
        0 <= i < j < tokens.len() ==> tokens[i].end <= tokens[j].start
}

/// The ranges are non-empty, lie inside the first `len` positions, and are sorted without overlap.
pub open spec fn sorted_ranges(ranges: Seq<(int, int)>, len: int) -> bool {
    &&& forall|i: int|
        #![trigger ranges[i]]
        0 <= i < ranges.len() ==> 0 <= ranges[i].0 < ranges[i].1 <= len
    &&& forall|i: int, j: int|
        #![trigger ranges[i], ranges[j]]
        0 <= i < j < ranges.len() ==> ranges[i].1 <= ranges[j].0
}

proof fn lemma_ordered_concat(a: Seq<TokenView>, b: Seq<TokenView>, lo: int, mid: int, hi: int)
    requires
        lo <= mid <= hi,
        tokens_ordered(a, lo, mid),
        tokens_ordered(b, mid, hi),
    ensures
        tokens_ordered(a + b, lo, hi),
{
    let c = a + b;
    assert forall|i: int| #![trigger c[i]] 0 <= i < c.len() implies lo <= c[i].start <= c[i].end
        <= hi && (c[i].start < c[i].end || c[i].kind is Indent || c[i].kind is Dedent) by {
        if i < a.len() {
            assert(c[i] == a[i]);
        } else {
            assert(c[i] == b[i - a.len()]);
        }
    }
    assert forall|i: int, j: int| #![trigger c[i], c[j]] 0 <= i < j < c.len() implies c[i].end
        <= c[j].start by {
        if j < a.len() {
            assert(c[i] == a[i] && c[j] == a[j]);
        } else if i >= a.len() {
            assert(c[i] == b[i - a.len()] && c[j] == b[j - a.len()]);
        } else {
            assert(c[i] == a[i] && c[j] == b[j - a.len()]);
        }
    }
}

proof fn lemma_indent_tokens_ordered(s: Seq<u8>, p: int, indents: Seq<int>)
    ensures
        tokens_ordered(lex_spec::indent_tokens(s, p, indents), p, p),
{
}

proof fn lemma_lex_from_ordered(s: Seq<u8>, python: bool, st: LexState)
    requires
        0 <= st.pos <= s.len(),
    ensures
        tokens_ordered(lex_spec::lex_from(s, python, st), st.pos, s.len() as int),
    decreases s.len() - st.pos,
{
    if st.pos < s.len() {
        let settled = lex_spec::settle(s, python, st);
        let next = lex_spec::next_state(s, python, settled);
        let lead = lex_spec::lead_tokens(s, python, st);
        let own = lex_spec::own_tokens(s, python, settled);
        lex_spec::lemma_token_at(s, lex_spec::newline_counts(python, st), st.pos);
        lemma_lex_from_ordered(s, python, next);
        lemma_indent_tokens_ordered(s, st.pos, st.indents);
        lemma_ordered_concat(lead, own, st.pos, st.pos, next.pos);
        lemma_ordered_concat(
            lead + own,
            lex_spec::lex_from(s, python, next),
            st.pos,
            next.pos,
            s.len() as int,
        );
    }
}

/// The token that a range is that of.
proof fn lemma_token_of_range(tokens: Seq<TokenView>, comments: bool, i: int) -> (k: int)
    requires
        0 <= i < lex_spec::token_ranges(tokens, comments).len(),
    ensures
        0 <= k < tokens.len(),
        lex_spec::token_ranges(tokens, comments)[i] == (tokens[k].start, tokens[k].end),
        if comments {
            tokens[k].kind is Comment
        } else {
            tokens[k].kind is StringLiteral
        },
    decreases tokens.len(),
{
    let init = tokens.drop_last();
    let rest = lex_spec::token_ranges(init, comments);
    if i < rest.len() {
        assert(lex_spec::token_ranges(tokens, comments)[i] == rest[i]);
        lemma_token_of_range(init, comments, i)
    } else {
        tokens.len() - 1
    }
}

/// The range is that of a comment among the tokens, or else of a string literal.
pub open spec fn is_range_of(tokens: Seq<TokenView>, comments: bool, r: (int, int)) -> bool {
    exists|k: int|
        #![trigger tokens[k]]
        0 <= k < tokens.len() && r == (tokens[k].start, tokens[k].end) && (if comments {
            tokens[k].kind is Comment
        } else {
            tokens[k].kind is StringLiteral
        })
}

/// The ranges of ordered tokens are themselves ordered, and each is that of some token.
pub proof fn lemma_token_ranges(tokens: Seq<TokenView>, comments: bool, len: int)
    requires
        tokens_ordered(tokens, 0, len),
    ensures
        sorted_ranges(lex_spec::token_ranges(tokens, comments), len),
        forall|i: int|
            0 <= i < lex_spec::token_ranges(tokens, comments).len() ==> is_range_of(
                tokens,
                comments,
                #[trigger] lex_spec::token_ranges(tokens, comments)[i],
            ),
{
    lemma_sorted_token_ranges(tokens, comments, len);
    assert forall|i: int|
        0 <= i < lex_spec::token_ranges(tokens, comments).len() implies is_range_of(
        tokens,
        comments,
        #[trigger] lex_spec::token_ranges(tokens, comments)[i],
    ) by {
        let k = lemma_token_of_range(tokens, comments, i);
        assert(tokens[k].start == lex_spec::token_ranges(tokens, comments)[i].0);
    }
}

proof fn lemma_sorted_token_ranges(tokens: Seq<TokenView>, comments: bool, len: int)
    requires
        tokens_ordered(tokens, 0, len),
    ensures
        sorted_ranges(lex_spec::token_ranges(tokens, comments), len),
    decreases tokens.len(),
{
    if tokens.len() > 0 {
        let init = tokens.drop_last();
        let last = tokens.len() - 1;
        assert forall|i: int| 0 <= i < init.len() implies #[trigger] init[i] == tokens[i] by {}
        assert(tokens_ordered(init, 0, len));
        lemma_sorted_token_ranges(init, comments, len);
        let rest = lex_spec::token_ranges(init, comments);
        let all = lex_spec::token_ranges(tokens, comments);
        assert(tokens.last() == tokens[last]);
        assert forall|i: int, j: int| #![trigger all[i], all[j]] 0 <= i < j
            < all.len() implies all[i].1 <= all[j].0 by {
            assert(all[i] == rest[i]);
            if j < rest.len() {
                assert(all[j] == rest[j]);
            } else {
                let k = lemma_token_of_range(init, comments, i);
                assert(init[k] == tokens[k]);
            }
        }
        assert forall|i: int| #![trigger all[i]] 0 <= i < all.len() implies 0 <= all[i].0
            < all[i].1 <= len by {
            if i < rest.len() {
                assert(all[i] == rest[i]);
            }
        }
    }
}

/// **Law.** The tokens of a text follow each other without overlap, and every token other than
/// an indentation token covers at least one byte.
pub proof fn law_tokens_ordered(s: Seq<u8>, python: bool)
    ensures
        tokens_ordered(lex_spec::lex(s, python).tokens, 0, s.len() as int),
{
    lemma_lex_from_ordered(s, python, lex_spec::lex_start(python));
}

/// **Law.** Comment ranges and string ranges are sorted and non-overlapping, and no comment
/// overlaps a string.
pub proof fn law_ranges_sorted(s: Seq<u8>, python: bool)
    ensures
        sorted_ranges(lex_spec::lex(s, python).comments, s.len() as int),
        sorted_ranges(lex_spec::lex(s, python).strings, s.len() as int),
        forall|i: int, j: int|
            #![trigger lex_spec::lex(s, python).comments[i], lex_spec::lex(s, python).strings[j]]
            0 <= i < lex_spec::lex(s, python).comments.len() && 0 <= j < lex_spec::lex(s, python).strings.len() ==> {
                let c = lex_spec::lex(s, python).comments[i];
                let t = lex_spec::lex(s, python).strings[j];
                c.1 <= t.0 || t.1 <= c.0
            },
{
    law_tokens_ordered(s, python);
    let tokens = lex_spec::lex(s, python).tokens;
    lemma_token_ranges(tokens, true, s.len() as int);
    lemma_token_ranges(tokens, false, s.len() as int);
    let cs = lex_spec::lex(s, python).comments;
    let ts = lex_spec::lex(s, python).strings;
    assert forall|i: int, j: int|
        #![trigger cs[i], ts[j]]
        0 <= i < cs.len() && 0 <= j < ts.len() implies cs[i].1 <= ts[j].0 || ts[j].1 <= cs[i].0 by {
        let a = choose|k: int|
            #![trigger tokens[k]]
            0 <= k < tokens.len() && cs[i] == (tokens[k].start, tokens[k].end)
                && tokens[k].kind is Comment;
        let b = choose|k: int|
            #![trigger tokens[k]]
            0 <= k < tokens.len() && ts[j] == (tokens[k].start, tokens[k].end)
                && tokens[k].kind is StringLiteral;
        assert(lex_spec::token_ranges(tokens, true)[i] == cs[i]);
        assert(lex_spec::token_ranges(tokens, false)[j] == ts[j]);
        assert(tokens[a].kind is Comment);
        assert(tokens[b].kind is StringLiteral);
    }
}

/// Position `p` lies in one of the tokens.
pub open spec fn covered(tokens: Seq<TokenView>, p: int) -> bool {
    exists|k: int| 0 <= k < tokens.len() && (#[trigger] tokens[k]).start <= p < tokens[k].end
}

proof fn lemma_covered_concat(a: Seq<TokenView>, b: Seq<TokenView>, p: int)
    requires
        covered(a, p) || covered(b, p),
    ensures
        covered(a + b, p),
{
    if covered(a, p) {
        let k = choose|k: int| 0 <= k < a.len() && (#[trigger] a[k]).start <= p < a[k].end;
        assert((a + b)[k] == a[k]);
    } else {
        let k = choose|k: int| 0 <= k < b.len() && (#[trigger] b[k]).start <= p < b[k].end;
        assert((a + b)[a.len() + k] == b[k]);
    }
}

proof fn lemma_lex_from_covers(s: Seq<u8>, python: bool, st: LexState, p: int)
    requires
        0 <= st.pos <= p < s.len(),
        !lex_spec::is_space(s[p]),
    ensures
        covered(lex_spec::lex_from(s, python, st), p),
    decreases s.len() - st.pos,
{
    let settled = lex_spec::settle(s, python, st);
    let next = lex_spec::next_state(s, python, settled);
    let lead = lex_spec::lead_tokens(s, python, st);
    let own = lex_spec::own_tokens(s, python, settled);
    lex_spec::lemma_token_at(s, lex_spec::newline_counts(python, st), st.pos);
    if p < next.pos {
        assert(own[0].start <= p < own[0].end);
        lemma_covered_concat(lead, own, p);
        lemma_covered_concat(lead + own, lex_spec::lex_from(s, python, next), p);
    } else {
        lemma_lex_from_covers(s, python, next, p);
        lemma_covered_concat(lead + own, lex_spec::lex_from(s, python, next), p);
    }
}

/// **Law.** Every byte that is not whitespace lies in a token.
pub proof fn law_every_byte_covered(s: Seq<u8>, python: bool, p: int)
    requires
        0 <= p < s.len(),
        !lex_spec::is_space(s[p]),
    ensures
        covered(lex_spec::lex(s, python).tokens, p),
{
    lemma_lex_from_covers(s, python, lex_spec::lex_start(python), p);
}

proof fn lemma_lex_from_lines(s: Seq<u8>, python: bool, st: LexState)
    requires
        0 <= st.pos <= s.len(),
    ensures
        forall|k: int|
            0 <= k < lex_spec::lex_from(s, python, st).len() ==> (#[trigger] lex_spec::lex_from(s, python, st)[k]).line
                == lex_spec::line_at(s, lex_spec::lex_from(s, python, st)[k].start),
    decreases s.len() - st.pos,
{
    if st.pos < s.len() {
        lex_spec::lemma_token_at(s, lex_spec::newline_counts(python, st), st.pos);
        lemma_lex_from_lines(s, python, lex_spec::next_state(s, python, lex_spec::settle(s, python, st)));
    }
}

/// **Law.** The line of a token is one more than the number of newlines before it.
pub proof fn law_token_lines(s: Seq<u8>, python: bool, k: int)
    requires
        0 <= k < lex_spec::lex(s, python).tokens.len(),
    ensures
        lex_spec::lex(s, python).tokens[k].line == lex_spec::line_at(s, lex_spec::lex(s, python).tokens[k].start),
{
    lemma_lex_from_lines(s, python, lex_spec::lex_start(python));
}

/// Number of indent tokens minus number of dedent tokens.
pub open spec fn indent_balance(tokens: Seq<TokenView>) -> int
    decreases tokens.len(),
{
    if tokens.len() == 0 {
        0
    } else {
        indent_balance(tokens.drop_last()) + (if tokens.last().kind is Indent {
            1int
        } else if tokens.last().kind is Dedent {
            -1
        } else {
            0
        })
    }
}

proof fn lemma_balance_concat(a: Seq<TokenView>, b: Seq<TokenView>)
    ensures
        indent_balance(a + b) == indent_balance(a) + indent_balance(b),
    decreases b.len(),
{
    if b.len() == 0 {
        assert(a + b =~= a);
    } else {
        assert((a + b).drop_last() =~= a + b.drop_last());
        lemma_balance_concat(a, b.drop_last());
    }
}

proof fn lemma_balance_dedents(s: Seq<u8>, p: int, n: int)
    requires
        0 <= n,
    ensures
        indent_balance(lex_spec::dedents(s, p, n)) == -n,
    decreases n,
{
    if n > 0 {
        lex_spec::lemma_dedents_push(s, p, n - 1);
        lemma_balance_dedents(s, p, n - 1);
        assert(lex_spec::dedents(s, p, n).drop_last() =~= lex_spec::dedents(s, p, n - 1));
    }
}

proof fn lemma_lex_from_balance(s: Seq<u8>, python: bool, st: LexState)
    requires
        0 <= st.pos <= s.len(),
        python ==> st.indents.len() >= 1,
        !python ==> st.indents.len() == 0,
    ensures
        indent_balance(lex_spec::lex_from(s, python, st)) == (if python {
            1 - st.indents.len()
        } else {
            0
        }),
    decreases s.len() - st.pos,
{
    reveal_with_fuel(indent_balance, 2);
    if st.pos < s.len() {
        let settled = lex_spec::settle(s, python, st);
        let next = lex_spec::next_state(s, python, settled);
        let lead = lex_spec::lead_tokens(s, python, st);
        let own = lex_spec::own_tokens(s, python, settled);
        lex_spec::lemma_token_at(s, lex_spec::newline_counts(python, st), st.pos);
        lex_spec::lemma_pop_deeper(st.indents, lex_spec::blank_end(s, st.pos) - st.pos);
        lemma_lex_from_balance(s, python, next);
        lemma_balance_concat(lead, own);
        lemma_balance_concat(lead + own, lex_spec::lex_from(s, python, next));
        if lex_spec::starts_line(python, st) && settled.indents.len() <= st.indents.len() {
            lemma_balance_dedents(s, st.pos, st.indents.len() - settled.indents.len());
        }
    } else if st.indents.len() > 1 {
        lemma_balance_dedents(s, st.pos, st.indents.len() - 1);
    }
}

/// **Law.** Every indentation level that a text opens is closed again: the indent tokens are as
/// many as the dedent tokens.
pub proof fn law_indentation_balanced(s: Seq<u8>, python: bool)
    ensures
        indent_balance(lex_spec::lex(s, python).tokens) == 0,
{
    lemma_lex_from_balance(s, python, lex_spec::lex_start(python));
}

// ---------------------------------------------------------------------------
// Logical lines
// ---------------------------------------------------------------------------

/// Bracket depth behind a byte: `(`, `[` and `{` open one, and their partners close one, if any.
pub open spec fn depth_past(depth: int, b: u8) -> int {
    if b == 40 || b == 91 || b == 123 {
        depth + 1
    } else if (b == 41 || b == 93 || b == 125) && depth > 0 {
        depth - 1
    } else {
        depth
    }
}

/// Bracket depth of a Python text at position `p`: that of the tokens before it, starting from
/// `depth`.
pub open spec fn bracket_depth(s: Seq<u8>, tokens: Seq<TokenView>, p: int, depth: int) -> int
    decreases tokens.len(),
{
    if tokens.len() == 0 || tokens[0].start >= p {
        depth
    } else if tokens[0].start < tokens[0].end {
        bracket_depth(s, tokens.skip(1), p, depth_past(depth, s[tokens[0].start]))
    } else {
        bracket_depth(s, tokens.skip(1), p, depth)
    }
}

/// Position `p` lies in a string literal or a comment.
pub open spec fn in_literal_or_comment(tokens: Seq<TokenView>, p: int) -> bool {
    exists|k: int|
        0 <= k < tokens.len() && (#[trigger] tokens[k]).start <= p < tokens[k].end && (
        tokens[k].kind is StringLiteral || tokens[k].kind is Comment)
}

/// Position `p` is a newline in a directive, which a backslash continues over it.
pub open spec fn in_continued_directive(s: Seq<u8>, tokens: Seq<TokenView>, p: int) -> bool {
    exists|k: int|
        0 <= k < tokens.len() && (#[trigger] tokens[k]).start <= p < tokens[k].end
            && tokens[k].kind is Preprocessor && lex_spec::is_continued(s, p)
}

/// The byte at `p` is a token of its own that separates statements.
pub open spec fn separator_at(tokens: Seq<TokenView>, p: int) -> bool {
    exists|k: int|
        0 <= k < tokens.len() && (#[trigger] tokens[k]).kind is Semicolon && tokens[k].start == p
            && tokens[k].end == p + 1
}

proof fn lemma_depth_skip_empty(
    s: Seq<u8>,
    lead: Seq<TokenView>,
    rest: Seq<TokenView>,
    p: int,
    depth: int,
)
    requires
        forall|k: int|
            #![trigger lead[k]]
            0 <= k < lead.len() ==> lead[k].start == lead[k].end && lead[k].start < p,
    ensures
        bracket_depth(s, lead + rest, p, depth) == bracket_depth(s, rest, p, depth),
    decreases lead.len(),
{
    if lead.len() == 0 {
        assert(lead + rest =~= rest);
    } else {
        let next = lead.skip(1);
        assert((lead + rest).skip(1) =~= next + rest);
        assert((lead + rest)[0] == lead[0]);
        lemma_depth_skip_empty(s, next, rest, p, depth);
    }
}

proof fn lemma_depth_here(s: Seq<u8>, tokens: Seq<TokenView>, p: int, depth: int, hi: int)
    requires
        tokens_ordered(tokens, p, hi),
    ensures
        bracket_depth(s, tokens, p, depth) == depth,
{
    if tokens.len() > 0 {
        assert(tokens[0].start >= p);
    }
}

/// Only literals and comments take in a newline, and directives one that a backslash continues.
proof fn lemma_newline_in_token(s: Seq<u8>, i: int, p: int)
    requires
        0 <= i < s.len(),
        !lex_spec::is_space(s[i]),
        i <= p < lex_spec::token_at(s, true, i).1,
        s[p] == '\n' as u8,
    ensures
        lex_spec::token_at(s, true, i).0 is StringLiteral || lex_spec::token_at(
            s,
            true,
            i,
        ).0 is Comment || (lex_spec::token_at(s, true, i).0 is Preprocessor
            && lex_spec::is_continued(s, p)),
{
    lex_spec::lemma_directive_stop(s, i + 1);
    lex_spec::lemma_word_end(s, i + 1);
}

/// What lies in a token of a tail lies in one of the whole, and so does a separator.
proof fn lemma_tail_tokens(s: Seq<u8>, head: Seq<TokenView>, rest: Seq<TokenView>, p: int)
    ensures
        in_literal_or_comment(rest, p) ==> in_literal_or_comment(head + rest, p),
        in_continued_directive(s, rest, p) ==> in_continued_directive(s, head + rest, p),
        separator_at(rest, p) ==> separator_at(head + rest, p),
{
    let all = head + rest;
    if in_literal_or_comment(rest, p) {
        let k = choose|k: int|
            0 <= k < rest.len() && (#[trigger] rest[k]).start <= p < rest[k].end && (
            rest[k].kind is StringLiteral || rest[k].kind is Comment);
        assert(all[head.len() + k] == rest[k]);
    }
    if in_continued_directive(s, rest, p) {
        let k = choose|k: int|
            0 <= k < rest.len() && (#[trigger] rest[k]).start <= p < rest[k].end
                && rest[k].kind is Preprocessor && lex_spec::is_continued(s, p);
        assert(all[head.len() + k] == rest[k]);
    }
    if separator_at(rest, p) {
        let k = choose|k: int|
            0 <= k < rest.len() && (#[trigger] rest[k]).kind is Semicolon && rest[k].start == p
                && rest[k].end == p + 1;
        assert(all[head.len() + k] == rest[k]);
    }
}

/// The bracket depth at a position behind the tokens that one step emits is that after them.
proof fn lemma_step_depth(s: Seq<u8>, st: LexState, p: int)
    requires
        0 <= st.pos < p < s.len(),
    ensures
        ({
            let next = lex_spec::next_state(s, true, lex_spec::settle(s, true, st));
            bracket_depth(s, lex_spec::lex_from(s, true, st), p, st.depth) == bracket_depth(
                s,
                lex_spec::lex_from(s, true, next),
                p,
                next.depth,
            )
        }),
{
    let settled = lex_spec::settle(s, true, st);
    let next = lex_spec::next_state(s, true, settled);
    let lead = lex_spec::lead_tokens(s, true, st);
    let own = lex_spec::own_tokens(s, true, settled);
    let rest = lex_spec::lex_from(s, true, next);
    lex_spec::lemma_token_at(s, lex_spec::newline_counts(true, st), st.pos);
    assert(lex_spec::lex_from(s, true, st) =~= lead + (own + rest));
    lemma_depth_skip_empty(s, lead, own + rest, p, st.depth);
    if own.len() == 1 {
        assert((own + rest).skip(1) =~= rest);
        assert((own + rest)[0] == own[0]);
        assert(own[0].start == st.pos);
    } else {
        assert(own + rest =~= rest);
    }
}

/// A newline that the next step consumes outside brackets, literals and continued lines is a
/// separator.
proof fn lemma_step_separates(s: Seq<u8>, st: LexState, p: int)
    requires
        0 <= st.pos <= p < s.len(),
        p < lex_spec::next_state(s, true, lex_spec::settle(s, true, st)).pos,
        s[p] == '\n' as u8,
        bracket_depth(s, lex_spec::lex_from(s, true, st), p, st.depth) == 0,
        !in_literal_or_comment(lex_spec::lex_from(s, true, st), p),
        !in_continued_directive(s, lex_spec::lex_from(s, true, st), p),
    ensures
        separator_at(lex_spec::lex_from(s, true, st), p),
{
    let settled = lex_spec::settle(s, true, st);
    let next = lex_spec::next_state(s, true, settled);
    let lead = lex_spec::lead_tokens(s, true, st);
    let own = lex_spec::own_tokens(s, true, settled);
    let rest = lex_spec::lex_from(s, true, next);
    let all = lex_spec::lex_from(s, true, st);
    let logical = lex_spec::newline_counts(true, st);
    lex_spec::lemma_token_at(s, logical, st.pos);
    assert(all == lead + own + rest);
    if p == st.pos {
        lemma_lex_from_ordered(s, true, st);
        lemma_depth_here(s, all, p, st.depth, s.len() as int);
        assert(lex_spec::ends_line(s, true, settled));
        assert(all[lead.len() as int] == own[0]);
    } else {
        let token = lex_spec::token_at(s, logical, st.pos);
        assert(all[lead.len() as int] == own[0]);
        lemma_lex_from_ordered(s, true, next);
        lemma_step_depth(s, st, p);
        if rest.len() > 0 {
            assert(rest[0].start >= next.pos);
        }
        assert(next.depth == 0);
        if token.0 is Preprocessor {
            lemma_newline_in_token(s, st.pos, p);
        } else {
            lex_spec::lemma_word_end(s, st.pos + 1);
        }
    }
}

proof fn lemma_lex_from_separates(s: Seq<u8>, st: LexState, p: int)
    requires
        0 <= st.pos <= p < s.len(),
        s[p] == '\n' as u8,
        bracket_depth(s, lex_spec::lex_from(s, true, st), p, st.depth) == 0,
        !in_literal_or_comment(lex_spec::lex_from(s, true, st), p),
        !in_continued_directive(s, lex_spec::lex_from(s, true, st), p),
    ensures
        separator_at(lex_spec::lex_from(s, true, st), p),
    decreases s.len() - st.pos,
{
    let settled = lex_spec::settle(s, true, st);
    let next = lex_spec::next_state(s, true, settled);
    lex_spec::lemma_token_at(s, lex_spec::newline_counts(true, st), st.pos);
    if p < next.pos {
        lemma_step_separates(s, st, p);
    } else {
        let head = lex_spec::lead_tokens(s, true, st) + lex_spec::own_tokens(s, true, settled);
        lemma_step_depth(s, st, p);
        lemma_tail_tokens(s, head, lex_spec::lex_from(s, true, next), p);
        lemma_lex_from_separates(s, next, p);
    }
}

/// **Law.** Every logical line of a Python text ends in a separator: a newline that stands outside
/// brackets, literals and comments is a semicolon token, whatever stands before it on its line.
/// That of a `#` comment is one too, unless a backslash continues the comment.
pub proof fn law_logical_line_ends(s: Seq<u8>, p: int)
    requires
        0 <= p < s.len(),
        s[p] == '\n' as u8,
        bracket_depth(s, lex_spec::lex(s, true).tokens, p, 0) == 0,
        !in_literal_or_comment(lex_spec::lex(s, true).tokens, p),
        !in_continued_directive(s, lex_spec::lex(s, true).tokens, p),
    ensures
        separator_at(lex_spec::lex(s, true).tokens, p),
{
    lemma_lex_from_separates(s, lex_spec::lex_start(true), p);
}

// ---------------------------------------------------------------------------
// Indentation
// ---------------------------------------------------------------------------

/// Number of blanks and tabs from `p` on.
pub open spec fn width_at(s: Seq<u8>, p: int) -> int
    decreases s.len() - p,
{
    if 0 <= p < s.len() && (s[p] == 32 || s[p] == 9) {
        1 + width_at(s, p + 1)
    } else {
        0
    }
}

/// The open indentation levels behind some tokens: an indent token opens the level of its line, and a
/// dedent token closes the innermost one.
pub open spec fn levels_past(s: Seq<u8>, open: Seq<int>, tokens: Seq<TokenView>) -> Seq<int>
    decreases tokens.len(),
{
    if tokens.len() == 0 {
        open
    } else {
        let before = levels_past(s, open, tokens.drop_last());
        let t = tokens.last();
        if t.kind is Indent {
            before.push(width_at(s, t.start))
        } else if t.kind is Dedent {
            before.drop_last()
        } else {
            before
        }
    }
}

proof fn lemma_width(s: Seq<u8>, p: int)
    requires
        0 <= p <= s.len(),
    ensures
        lex_spec::blank_end(s, p) == p + width_at(s, p),
        0 <= width_at(s, p) <= s.len() - p,
    decreases s.len() - p,
{
    if p < s.len() && (s[p] == 32 || s[p] == 9) {
        lemma_width(s, p + 1);
    }
}

proof fn lemma_levels_concat(s: Seq<u8>, open: Seq<int>, a: Seq<TokenView>, b: Seq<TokenView>)
    ensures
        levels_past(s, open, a + b) == levels_past(s, levels_past(s, open, a), b),
    decreases b.len(),
{
    if b.len() == 0 {
        assert(a + b =~= a);
    } else {
        lemma_levels_concat(s, open, a, b.drop_last());
        assert((a + b).drop_last() =~= a + b.drop_last());
        assert((a + b).last() == b.last());
    }
}

/// Popping levels one by one.
proof fn lemma_levels_dedents(s: Seq<u8>, p: int, open: Seq<int>, col: int, m: int)
    requires
        open.len() >= 1,
        0 <= m <= open.len() - lex_spec::pop_deeper(open, col).len(),
    ensures
        levels_past(s, open, lex_spec::dedents(s, p, m)) == open.take(open.len() - m),
        m < open.len() - lex_spec::pop_deeper(open, col).len() ==> open.len() - m > 1 && open[
            open.len() - m - 1
        ] > col,
    decreases m,
{
    lemma_pop_deeper_bounds(open, col, m);
    if m > 0 {
        lemma_levels_dedents(s, p, open, col, m - 1);
        lex_spec::lemma_dedents_push(s, p, m - 1);
        let d = lex_spec::dedents(s, p, m);
        assert(d.drop_last() =~= lex_spec::dedents(s, p, m - 1));
        assert(open.take(open.len() - m) =~= open.take(open.len() - m + 1).drop_last());
    } else {
        assert(lex_spec::dedents(s, p, m) =~= seq![]);
        assert(open.take(open.len() as int) =~= open);
    }
}

proof fn lemma_pop_deeper_bounds(open: Seq<int>, col: int, m: int)
    requires
        open.len() >= 1,
        0 <= m,
    ensures
        lex_spec::pop_deeper(open, col).len() >= 1,
        lex_spec::pop_deeper(open, col).len() <= open.len(),
        lex_spec::pop_deeper(open, col) == open.take(
            lex_spec::pop_deeper(open, col).len() as int,
        ),
        lex_spec::pop_deeper(open, col).len() == 1 || lex_spec::pop_deeper(open, col).last() <= col,
        m < open.len() - lex_spec::pop_deeper(open, col).len() ==> open.len() - m > 1 && open[
            open.len() - m - 1
        ] > col,
    decreases open.len(),
{
    if open.len() > 1 && open.last() > col {
        let init = open.drop_last();
        lemma_pop_deeper_bounds(init, col, if m > 0 {
            m - 1
        } else {
            0
        });
        let r = lex_spec::pop_deeper(open, col);
        assert(init.take(r.len() as int) =~= open.take(r.len() as int));
    } else {
        assert(open.take(open.len() as int) =~= open);
    }
}

/// The levels are those of the lines that opened them, with the margin at the bottom.
spec fn levels_sound(open: Seq<int>) -> bool {
    open.len() >= 1 && open[0] == 0
}

/// What stands at `e` is neither the end of a line nor that of the text, nor a comment.
pub open spec fn is_content(s: Seq<u8>, e: int) -> bool {
    e < s.len() && s[e] != 10 && s[e] != 13 && s[e] != 35
}

/// A token that changes the indentation does so for a reason.
pub open spec fn level_change_fits(s: Seq<u8>, open: Seq<int>, t: TokenView) -> bool {
    &&& t.kind is Indent || (t.kind is Dedent && t.start != s.len()) ==> is_content(
        s,
        t.start + width_at(s, t.start),
    )
    &&& t.kind is Indent ==> width_at(s, t.start) > open.last()
    &&& t.kind is Dedent ==> open.len() > 1 && (t.start == s.len() || open.last() > width_at(
        s,
        t.start,
    ))
}

proof fn lemma_lead_levels(s: Seq<u8>, st: LexState, k: int)
    requires
        0 <= st.pos < s.len(),
        levels_sound(st.indents),
        0 <= k <= lex_spec::lead_tokens(s, true, st).len(),
    ensures
        levels_sound(lex_spec::settle(s, true, st).indents),
        levels_past(s, st.indents, lex_spec::lead_tokens(s, true, st)) == lex_spec::settle(
            s,
            true,
            st,
        ).indents,
        k < lex_spec::lead_tokens(s, true, st).len() ==> level_change_fits(
            s,
            levels_past(s, st.indents, lex_spec::lead_tokens(s, true, st).take(k)),
            lex_spec::lead_tokens(s, true, st)[k],
        ),
{
    reveal_with_fuel(levels_past, 2);
    let lead = lex_spec::lead_tokens(s, true, st);
    let col = lex_spec::blank_end(s, st.pos) - st.pos;
    lemma_width(s, st.pos);
    if lex_spec::starts_line(true, st) && lex_spec::is_significant(s, st.pos) {
        if col > st.indents.last() {
            assert(lead.drop_last() =~= seq![]);
            assert(lead.take(0) =~= seq![]);
        } else {
            lemma_pop_deeper_bounds(st.indents, col, 0);
            let after = lex_spec::pop_deeper(st.indents, col);
            let n = st.indents.len() - after.len();
            assert(lead == lex_spec::dedents(s, st.pos, n));
            lemma_levels_dedents(s, st.pos, st.indents, col, n);
            if k < lead.len() {
                lemma_levels_dedents(s, st.pos, st.indents, col, k);
                assert(lead.take(k) =~= lex_spec::dedents(s, st.pos, k));
                assert(st.indents.take(st.indents.len() - k).last() == st.indents[
                    st.indents.len() - k - 1
                ]);
            }
        }
    } else {
        assert(lead =~= seq![]);
    }
}

proof fn lemma_own_levels(s: Seq<u8>, st: LexState, open: Seq<int>)
    requires
        0 <= st.pos < s.len(),
    ensures
        levels_past(s, open, lex_spec::own_tokens(s, true, st)) == open,
        lex_spec::own_tokens(s, true, st).len() <= 1,
        forall|k: int|
            0 <= k < lex_spec::own_tokens(s, true, st).len() ==> !((#[trigger] lex_spec::own_tokens(
                s,
                true,
                st,
            )[k]).kind is Indent) && !(lex_spec::own_tokens(s, true, st)[k].kind is Dedent),
{
    reveal_with_fuel(levels_past, 2);
    lex_spec::lemma_token_at(s, lex_spec::newline_counts(true, st), st.pos);
    let own = lex_spec::own_tokens(s, true, st);
    if own.len() == 1 {
        assert(own.drop_last() =~= seq![]);
    }
}

proof fn lemma_level_changes(s: Seq<u8>, st: LexState, k: int)
    requires
        0 <= st.pos <= s.len(),
        levels_sound(st.indents),
        0 <= k < lex_spec::lex_from(s, true, st).len(),
    ensures
        level_change_fits(
            s,
            levels_past(s, st.indents, lex_spec::lex_from(s, true, st).take(k)),
            lex_spec::lex_from(s, true, st)[k],
        ),
    decreases s.len() - st.pos,
{
    let all = lex_spec::lex_from(s, true, st);
    if st.pos < s.len() {
        let settled = lex_spec::settle(s, true, st);
        let next = lex_spec::next_state(s, true, settled);
        let lead = lex_spec::lead_tokens(s, true, st);
        let own = lex_spec::own_tokens(s, true, settled);
        let rest = lex_spec::lex_from(s, true, next);
        lex_spec::lemma_token_at(s, lex_spec::newline_counts(true, st), st.pos);
        lemma_lead_levels(s, st, if k < lead.len() {
            k
        } else {
            0
        });
        lemma_own_levels(s, settled, settled.indents);
        if k < lead.len() {
            assert(all[k] == lead[k]);
            assert(all.take(k) =~= lead.take(k));
        } else if k < lead.len() + own.len() {
            assert(all[k] == own[k - lead.len()]);
        } else {
            let j = k - lead.len() - own.len();
            assert(all[k] == rest[j]);
            assert(all.take(k) =~= (lead + own) + rest.take(j));
            lemma_levels_concat(s, st.indents, lead + own, rest.take(j));
            lemma_levels_concat(s, st.indents, lead, own);
            lemma_level_changes(s, next, j);
        }
    } else {
        let n = st.indents.len() - 1;
        assert(all =~= lex_spec::dedents(s, st.pos, n));
        lemma_dedent_all(s, st.pos, st.indents, k);
        assert(all.take(k) =~= lex_spec::dedents(s, st.pos, k));
    }
}

proof fn lemma_dedent_all(s: Seq<u8>, p: int, open: Seq<int>, m: int)
    requires
        0 <= m < open.len(),
    ensures
        levels_past(s, open, lex_spec::dedents(s, p, m)) == open.take(open.len() - m),
    decreases m,
{
    if m > 0 {
        lemma_dedent_all(s, p, open, m - 1);
        lex_spec::lemma_dedents_push(s, p, m - 1);
        let d = lex_spec::dedents(s, p, m);
        assert(d.drop_last() =~= lex_spec::dedents(s, p, m - 1));
        assert(open.take(open.len() - m) =~= open.take(open.len() - m + 1).drop_last());
    } else {
        assert(lex_spec::dedents(s, p, m) =~= seq![]);
        assert(open.take(open.len() as int) =~= open);
    }
}

/// **Law.** Indentation changes only for a reason: an indent token stands in front of a line that is
/// indented deeper than the innermost open level, and a dedent token closes a level that is deeper
/// than its line, or is left at the end of the text.  A line that holds only blanks or a comment
/// changes nothing.
pub proof fn law_level_changes(s: Seq<u8>, k: int)
    requires
        0 <= k < lex_spec::lex(s, true).tokens.len(),
    ensures
        level_change_fits(
            s,
            levels_past(s, seq![0int], lex_spec::lex(s, true).tokens.take(k)),
            lex_spec::lex(s, true).tokens[k],
        ),
{
    lemma_level_changes(s, lex_spec::lex_start(true), k);
}

/// Blanks are skipped without a token.
proof fn lemma_skip_blanks(s: Seq<u8>, st: LexState)
    requires
        0 <= st.pos <= s.len(),
        !st.fresh,
    ensures
        lex_spec::lex_from(s, true, st) == lex_spec::lex_from(
            s,
            true,
            LexState { pos: st.pos + width_at(s, st.pos), ..st },
        ),
    decreases s.len() - st.pos,
{
    if st.pos < s.len() && (s[st.pos] == 32 || s[st.pos] == 9) {
        let next = LexState { pos: st.pos + 1, ..st };
        assert(lex_spec::settle(s, true, st) == st);
        assert(lex_spec::next_state(s, true, st) == next);
        assert(lex_spec::own_tokens(s, true, st) =~= seq![]);
        assert(lex_spec::lead_tokens(s, true, st) =~= seq![]);
        lex_spec::lemma_token_at(s, lex_spec::newline_counts(true, st), st.pos);
        lemma_skip_blanks(s, next);
        assert(lex_spec::lex_from(s, true, st) =~= lex_spec::lex_from(s, true, next));
    }
}

/// `tokens` go on with the line that starts at `p` behind the first `j` of them: tokens that change
/// the indentation at `p`, and then the first token of the line, at whose place the innermost open
/// level is that of the line, or a shallower one that the line is dedented past.
pub open spec fn line_opens(s: Seq<u8>, tokens: Seq<TokenView>, open: Seq<int>, p: int) -> bool {
    exists|m: int|
        0 <= m < tokens.len() && (#[trigger] tokens[m]).start == p + width_at(s, p)
            && tokens[m].start < tokens[m].end && (forall|i: int|
            0 <= i < m ==> ((#[trigger] tokens[i]).kind is Indent || tokens[i].kind is Dedent)
                && tokens[i].start == p) && levels_past(s, open, tokens.take(m)).last() <= width_at(
            s,
            p,
        ) && (levels_past(s, open, tokens.take(m)).last() == width_at(s, p) || (m > 0 && tokens[m
            - 1].kind is Dedent))
}

proof fn lemma_line_opens(s: Seq<u8>, st: LexState)
    requires
        0 <= st.pos < s.len(),
        st.fresh,
        st.depth == 0,
        levels_sound(st.indents),
        st.pos + width_at(s, st.pos) < s.len(),
        s[st.pos + width_at(s, st.pos)] != 10,
        s[st.pos + width_at(s, st.pos)] != 13,
        s[st.pos + width_at(s, st.pos)] != 12,
        s[st.pos + width_at(s, st.pos)] != 35,
    ensures
        line_opens(s, lex_spec::lex_from(s, true, st), st.indents, st.pos),
{
    let p = st.pos;
    let w = width_at(s, p);
    let settled = lex_spec::settle(s, true, st);
    let lead = lex_spec::lead_tokens(s, true, st);
    let all = lex_spec::lex_from(s, true, st);
    lemma_width(s, p);
    lemma_width_ends(s, p);
    lemma_lead_levels(s, st, 0);
    lex_spec::lemma_token_at(s, lex_spec::newline_counts(true, st), p);
    assert(lex_spec::lead_tokens(s, true, settled) =~= seq![]);
    assert(lex_spec::settle(s, true, settled) == settled);
    let tail = lex_spec::lex_from(s, true, settled);
    assert(tail =~= lex_spec::own_tokens(s, true, settled) + lex_spec::lex_from(
        s,
        true,
        lex_spec::next_state(s, true, settled),
    ));
    assert(all =~= lead + tail);
    lemma_skip_blanks(s, settled);
    let at = LexState { pos: p + w, ..settled };
    lex_spec::lemma_token_at(s, lex_spec::newline_counts(true, at), p + w);
    assert(lex_spec::settle(s, true, at) == at);
    assert(!lex_spec::is_space(s[p + w]));
    let own = lex_spec::own_tokens(s, true, at);
    assert(lex_spec::lead_tokens(s, true, at) =~= seq![]);
    assert(tail =~= own + lex_spec::lex_from(s, true, lex_spec::next_state(s, true, at)));
    let m = lead.len() as int;
    assert(all[m] == own[0]);
    assert(all.take(m) =~= lead);
    assert forall|i: int| 0 <= i < m implies ((#[trigger] all[i]).kind is Indent
        || all[i].kind is Dedent) && all[i].start == p by {
        assert(all[i] == lead[i]);
    }
    if w <= st.indents.last() {
        lemma_pop_deeper_bounds(st.indents, w, 0);
        let after = lex_spec::pop_deeper(st.indents, w);
        assert(settled.indents == after);
        if after.len() == 1 {
            assert(after[0] == st.indents[0]);
        }
        if m == 0 {
            assert(after.len() == st.indents.len());
            assert(st.indents.take(st.indents.len() as int) =~= st.indents);
        } else {
            assert(all[m - 1] == lead[m - 1]);
        }
    }
}

proof fn lemma_width_ends(s: Seq<u8>, p: int)
    requires
        0 <= p <= s.len(),
    ensures
        p + width_at(s, p) < s.len() ==> s[p + width_at(s, p)] != 32 && s[p + width_at(s, p)] != 9,
    decreases s.len() - p,
{
    if p < s.len() && (s[p] == 32 || s[p] == 9) {
        lemma_width_ends(s, p + 1);
    }
}

/// Behind a newline that ends a logical line the text goes on at the start of a line.
proof fn lemma_line_start_state(s: Seq<u8>, st: LexState, j: int) -> (at: LexState)
    requires
        0 <= st.pos <= s.len(),
        levels_sound(st.indents),
        st.depth >= 0,
        0 <= j < lex_spec::lex_from(s, true, st).len(),
        lex_spec::lex_from(s, true, st)[j].kind is Semicolon,
        s[lex_spec::lex_from(s, true, st)[j].start] == 10,
    ensures
        at.pos == lex_spec::lex_from(s, true, st)[j].start + 1,
        0 <= at.pos <= s.len(),
        at.fresh,
        at.depth == 0,
        levels_sound(at.indents),
        at.indents == levels_past(s, st.indents, lex_spec::lex_from(s, true, st).take(j + 1)),
        lex_spec::lex_from(s, true, st).skip(j + 1) == lex_spec::lex_from(s, true, at),
    decreases s.len() - st.pos,
{
    let all = lex_spec::lex_from(s, true, st);
    if st.pos < s.len() {
        let settled = lex_spec::settle(s, true, st);
        let next = lex_spec::next_state(s, true, settled);
        let lead = lex_spec::lead_tokens(s, true, st);
        let own = lex_spec::own_tokens(s, true, settled);
        let rest = lex_spec::lex_from(s, true, next);
        lex_spec::lemma_token_at(s, lex_spec::newline_counts(true, st), st.pos);
        lemma_lead_levels(s, st, 0);
        lemma_own_levels(s, settled, settled.indents);
        lemma_levels_concat(s, st.indents, lead, own);
        assert(all == lead + own + rest);
        if j < lead.len() {
            assert(all[j] == lead[j]);
            next
        } else if j < lead.len() + own.len() {
            assert(all[j] == own[0]);
            assert(all.take(j + 1) =~= lead + own);
            assert(all.skip(j + 1) =~= rest);
            next
        } else {
            let i = j - lead.len() - own.len();
            assert(all[j] == rest[i]);
            let at = lemma_line_start_state(s, next, i);
            assert(all.take(j + 1) =~= (lead + own) + rest.take(i + 1));
            lemma_levels_concat(s, st.indents, lead + own, rest.take(i + 1));
            assert(all.skip(j + 1) =~= rest.skip(i + 1));
            at
        }
    } else {
        assert(false) by {
            assert(all[j].kind is Dedent);
        }
        st
    }
}

/// **Law.** Every line of a Python text that holds more than blanks and a comment starts at its own
/// indentation level: in front of its first token stand exactly the changes that make its column the
/// innermost open level, or, where the line is dedented to a column that no open level has, the
/// dedents past that column.
pub proof fn law_line_opens_its_level(s: Seq<u8>, j: int)
    requires
        0 <= j < lex_spec::lex(s, true).tokens.len(),
        lex_spec::lex(s, true).tokens[j].kind is Semicolon,
        s[lex_spec::lex(s, true).tokens[j].start] == 10,
        ({
            let e = lex_spec::lex(s, true).tokens[j].end + width_at(
                s,
                lex_spec::lex(s, true).tokens[j].end,
            );
            e < s.len() && s[e] != 10 && s[e] != 13 && s[e] != 12 && s[e] != 35
        }),
    ensures
        line_opens(
            s,
            lex_spec::lex(s, true).tokens.skip(j + 1),
            levels_past(s, seq![0int], lex_spec::lex(s, true).tokens.take(j + 1)),
            lex_spec::lex(s, true).tokens[j].end,
        ),
{
    let tokens = lex_spec::lex(s, true).tokens;
    let at = lemma_line_start_state(s, lex_spec::lex_start(true), j);
    law_tokens_ordered(s, true);
    crate::lex_token_laws::law_token_extent(s, true, j);
    assert(tokens[j].end == tokens[j].start + 1);
    lemma_line_opens(s, at);
}

/// **Law.** The first line of a Python text opens its level in the same way.
pub proof fn law_first_line_opens_its_level(s: Seq<u8>)
    requires
        width_at(s, 0) < s.len(),
        s[width_at(s, 0)] != 10,
        s[width_at(s, 0)] != 13,
        s[width_at(s, 0)] != 12,
        s[width_at(s, 0)] != 35,
    ensures
        line_opens(s, lex_spec::lex(s, true).tokens, seq![0int], 0),
{
    lemma_width(s, 0);
    lemma_line_opens(s, lex_spec::lex_start(true));
}

/// **Law.** Outside Python mode there is no indentation, and a newline is white space.
pub proof fn law_no_indentation_elsewhere(s: Seq<u8>, k: int)
    requires
        0 <= k < lex_spec::lex(s, false).tokens.len(),
    ensures
        lex_spec::lex(s, false).tokens[k].start < lex_spec::lex(s, false).tokens[k].end,
        !(lex_spec::lex(s, false).tokens[k].kind is Indent),
        !(lex_spec::lex(s, false).tokens[k].kind is Dedent),
        s[lex_spec::lex(s, false).tokens[k].start] != 10,
{
    lemma_plain_tokens(s, lex_spec::lex_start(false), k);
}

proof fn lemma_plain_tokens(s: Seq<u8>, st: LexState, k: int)
    requires
        0 <= st.pos <= s.len(),
        st.indents.len() == 0,
        0 <= k < lex_spec::lex_from(s, false, st).len(),
    ensures
        lex_spec::lex_from(s, false, st)[k].start < lex_spec::lex_from(s, false, st)[k].end,
        !(lex_spec::lex_from(s, false, st)[k].kind is Indent),
        !(lex_spec::lex_from(s, false, st)[k].kind is Dedent),
        s[lex_spec::lex_from(s, false, st)[k].start] != 10,
    decreases s.len() - st.pos,
{
    if st.pos < s.len() {
        let next = lex_spec::next_state(s, false, st);
        let own = lex_spec::own_tokens(s, false, st);
        lex_spec::lemma_token_at(s, lex_spec::newline_counts(false, st), st.pos);
        assert(lex_spec::settle(s, false, st) == st);
        assert(lex_spec::lex_from(s, false, st) =~= own + lex_spec::lex_from(s, false, next));
        if k >= own.len() {
            lemma_plain_tokens(s, next, k - own.len());
        }
    }
}

} // verus!
