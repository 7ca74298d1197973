//! What the tokenizer recognizes: the extent of every kind of token and the token sequence of a
//! whole source text, stated over its bytes.

use vstd::prelude::*;

verus! {

// ---------------------------------------------------------------------------
// Views
// ---------------------------------------------------------------------------

/// Mathematical counterpart of [`crate::lexer::TokenKind`].
pub enum KindView {
    Word(Seq<char>),
    OpenBrace,
    CloseBrace,
    OpenParen,
    CloseParen,
    Semicolon,
    Colon,
    StringLiteral,
    Comment,
    Preprocessor,
    Indent,
    Dedent,
    Other,
}

/// Mathematical counterpart of [`crate::lexer::Token`].
pub struct TokenView {
    pub kind: KindView,
    pub start: int,
    pub end: int,
    pub line: int,
}

/// Mathematical counterpart of [`crate::lexer::LexOutput`]; a range is a pair of its bounds.
pub struct LexView {
    pub tokens: Seq<TokenView>,
    pub comments: Seq<(int, int)>,
    pub strings: Seq<(int, int)>,
}

// ---------------------------------------------------------------------------
// Positions
// ---------------------------------------------------------------------------

/// Number of newline bytes among the first `p` bytes.
pub open spec fn newlines(s: Seq<u8>, p: int) -> int
    decreases p,
{
    if p <= 0 {
        0
    } else {
        newlines(s, p - 1) + (if s[p - 1] == '\n' as u8 { 1int } else { 0 })
    }
}

/// 1-based line number of position `p`.
pub open spec fn line_at(s: Seq<u8>, p: int) -> int {
    newlines(s, p) + 1
}

/// First position at or after `i` that holds `b`, or the length of the text.
pub open spec fn index_from(s: Seq<u8>, i: int, b: u8) -> int
    decreases s.len() - i,
{
    if i >= s.len() {
        s.len() as int
    } else if s[i] == b {
        i
    } else {
        index_from(s, i + 1, b)
    }
}

/// Position just after the first `b` at or after `i`, or the length of the text.
pub open spec fn past(s: Seq<u8>, i: int, b: u8) -> int {
    let j = index_from(s, i, b);
    if j < s.len() {
        j + 1
    } else {
        s.len() as int
    }
}

// ---------------------------------------------------------------------------
// Extents of comments and literals
// ---------------------------------------------------------------------------

/// End of a block comment whose contents start at `i`: just after the first `*/`.
pub open spec fn block_end(s: Seq<u8>, i: int) -> int
    decreases s.len() - i,
{
    if i >= s.len() {
        s.len() as int
    } else if s[i] == '*' as u8 && i + 1 < s.len() && s[i + 1] == '/' as u8 {
        i + 2
    } else {
        block_end(s, i + 1)
    }
}

/// End of a literal whose contents start at `i`: just after the first `delim` that no backslash
/// escapes.
pub open spec fn string_end(s: Seq<u8>, i: int, delim: u8) -> int
    decreases s.len() + 1 - i,
{
    if i >= s.len() {
        s.len() as int
    } else if s[i] == '\\' as u8 {
        string_end(s, i + 2, delim)
    } else if s[i] == delim {
        i + 1
    } else {
        string_end(s, i + 1, delim)
    }
}

/// End of a triple-quoted literal whose contents start at `i`.  Delimiters are paired off from
/// the left: a pair that no third delimiter follows belongs to the contents.
pub open spec fn triple_end(s: Seq<u8>, i: int, delim: u8) -> int
    decreases s.len() + 1 - i,
{
    if i >= s.len() {
        s.len() as int
    } else if s[i] == '\\' as u8 {
        triple_end(s, i + 2, delim)
    } else if s[i] == delim && i + 1 < s.len() && s[i + 1] == delim {
        if i + 2 < s.len() && s[i + 2] == delim {
            i + 3
        } else {
            triple_end(s, i + 2, delim)
        }
    } else {
        triple_end(s, i + 1, delim)
    }
}

/// End of a quoted literal whose opening delimiter stands just before `i`: triple-quoted where
/// two more delimiters follow, empty where one does, and ordinary otherwise.
pub open spec fn literal_end(s: Seq<u8>, i: int, delim: u8) -> int {
    if i < s.len() && s[i] == delim {
        if i + 1 < s.len() && s[i + 1] == delim {
            triple_end(s, i + 2, delim)
        } else {
            i + 1
        }
    } else {
        string_end(s, i, delim)
    }
}

/// `t` occurs in `s` at position `i`.
pub open spec fn occurs_at(s: Seq<u8>, i: int, t: Seq<u8>) -> bool {
    0 <= i && i + t.len() <= s.len() && s.subrange(i, i + t.len()) == t
}

/// Just after the first `)` at or after `i` that `tail` follows, and after that `tail`.
pub open spec fn raw_close(s: Seq<u8>, i: int, tail: Seq<u8>) -> int
    decreases s.len() - i,
{
    if i >= s.len() {
        s.len() as int
    } else if s[i] == ')' as u8 && occurs_at(s, i + 1, tail) {
        i + 1 + tail.len()
    } else {
        raw_close(s, i + 1, tail)
    }
}

/// End of a raw literal `R"delim(...)delim"` whose opening quote stands just before `i`.
pub open spec fn raw_end(s: Seq<u8>, i: int) -> int {
    let open = index_from(s, i, '(' as u8);
    raw_close(s, open + 1, s.subrange(i, open).push('"' as u8))
}

/// Position after an optional carriage return and an optional newline at `i`.
pub open spec fn past_line_break(s: Seq<u8>, i: int) -> int {
    let j = if i < s.len() && s[i] == '\r' as u8 {
        i + 1
    } else {
        i
    };
    if j < s.len() && s[j] == '\n' as u8 {
        j + 1
    } else {
        j
    }
}

/// The newline that ends a directive read from `i`: the first one that no backslash continues, or
/// the length of the text.
pub open spec fn directive_stop(s: Seq<u8>, i: int) -> int
    decreases s.len() - i,
{
    if i >= s.len() {
        s.len() as int
    } else if s[i] == '\\' as u8 {
        directive_stop(s, past_line_break(s, i + 1))
    } else if s[i] == '\n' as u8 {
        i
    } else {
        directive_stop(s, i + 1)
    }
}

/// End of a directive read from `i`: just after the newline that ends it.
pub open spec fn directive_end(s: Seq<u8>, i: int) -> int {
    let j = directive_stop(s, i);
    if j < s.len() {
        j + 1
    } else {
        s.len() as int
    }
}

/// A backslash continues the line over the newline at `p`.
pub open spec fn is_continued(s: Seq<u8>, p: int) -> bool {
    (p >= 1 && s[p - 1] == '\\' as u8) || (p >= 2 && s[p - 1] == '\r' as u8 && s[p - 2]
        == '\\' as u8)
}

// ---------------------------------------------------------------------------
// Words
// ---------------------------------------------------------------------------

pub open spec fn is_alpha(b: u8) -> bool {
    ||| 'a' as u8 <= b <= 'z' as u8
    ||| 'A' as u8 <= b <= 'Z' as u8
}

/// A byte that can start an identifier.
pub open spec fn is_word_start(b: u8) -> bool {
    is_alpha(b) || b == '_' as u8
}

/// A byte that can continue an identifier.
pub open spec fn is_word_byte(b: u8) -> bool {
    is_word_start(b) || '0' as u8 <= b <= '9' as u8
}

/// First position at or after `i` that does not continue an identifier.
pub open spec fn word_end(s: Seq<u8>, i: int) -> int
    decreases s.len() - i,
{
    if i < s.len() && is_word_byte(s[i]) {
        word_end(s, i + 1)
    } else {
        i
    }
}

/// The ASCII bytes from `i` to `j` as characters.
pub open spec fn chars_of(s: Seq<u8>, i: int, j: int) -> Seq<char> {
    Seq::new((j - i) as nat, |k: int| s[i + k] as char)
}

/// Prefixes of a C++ raw string literal.
pub open spec fn is_raw_prefix(w: Seq<char>) -> bool {
    w == "R"@ || w == "LR"@ || w == "uR"@ || w == "UR"@ || w == "u8R"@
}

/// Prefixes of an ordinary C or C++ string or character literal.
pub open spec fn is_c_prefix(w: Seq<char>) -> bool {
    w == "L"@ || w == "u"@ || w == "U"@ || w == "u8"@
}

/// Prefixes of a Python bytes, raw or formatted string literal, alone and combined.
pub open spec fn is_py_prefix(w: Seq<char>) -> bool {
    ||| w == "b"@ || w == "B"@ || w == "f"@ || w == "F"@ || w == "r"@
    ||| w == "rb"@ || w == "rB"@ || w == "Rb"@ || w == "RB"@
    ||| w == "br"@ || w == "bR"@ || w == "Br"@ || w == "BR"@
    ||| w == "rf"@ || w == "rF"@ || w == "Rf"@ || w == "RF"@
    ||| w == "fr"@ || w == "fR"@ || w == "Fr"@ || w == "FR"@
}

/// The token whose identifier `w` ends at `e`: a literal where `w` is a literal prefix directly
/// before a quote, and a word otherwise.
pub open spec fn prefixed_token(s: Seq<u8>, w: Seq<char>, e: int) -> (KindView, int) {
    if is_raw_prefix(w) && e < s.len() && s[e] == '"' as u8 {
        (KindView::StringLiteral, raw_end(s, e + 1))
    } else if (is_c_prefix(w) || is_py_prefix(w)) && e < s.len() && (s[e] == '"' as u8 || s[e]
        == '\'' as u8) {
        (KindView::StringLiteral, literal_end(s, e + 1, s[e]))
    } else {
        (KindView::Word(w), e)
    }
}

// ---------------------------------------------------------------------------
// Single tokens
// ---------------------------------------------------------------------------

/// The ASCII whitespace bytes.
pub open spec fn is_space(b: u8) -> bool {
    b == ' ' as u8 || b == '\t' as u8 || b == '\n' as u8 || b == '\r' as u8 || b == 12
}

/// Kind and end of the token that starts at `i`, a position that holds no whitespace.
///
/// A line comment and a directive take the newline that ends them, unless a newline ends a logical
/// line here.
pub open spec fn token_at(s: Seq<u8>, logical: bool, i: int) -> (KindView, int) {
    let b = s[i];
    if b == '{' as u8 {
        (KindView::OpenBrace, i + 1)
    } else if b == '}' as u8 {
        (KindView::CloseBrace, i + 1)
    } else if b == '(' as u8 {
        (KindView::OpenParen, i + 1)
    } else if b == ')' as u8 {
        (KindView::CloseParen, i + 1)
    } else if b == ';' as u8 {
        (KindView::Semicolon, i + 1)
    } else if b == ':' as u8 {
        (KindView::Colon, i + 1)
    } else if b == '/' as u8 && i + 1 < s.len() && s[i + 1] == '/' as u8 {
        (
            KindView::Comment,
            if logical {
                index_from(s, i + 2, '\n' as u8)
            } else {
                past(s, i + 2, '\n' as u8)
            },
        )
    } else if b == '/' as u8 && i + 1 < s.len() && s[i + 1] == '*' as u8 {
        (KindView::Comment, block_end(s, i + 2))
    } else if b == '"' as u8 || b == '\'' as u8 {
        (KindView::StringLiteral, literal_end(s, i + 1, b))
    } else if b == '`' as u8 {
        (KindView::StringLiteral, past(s, i + 1, '`' as u8))
    } else if b == '#' as u8 {
        (
            KindView::Preprocessor,
            if logical {
                directive_stop(s, i + 1)
            } else {
                directive_end(s, i + 1)
            },
        )
    } else if is_word_start(b) {
        let e = word_end(s, i + 1);
        prefixed_token(s, chars_of(s, i, e), e)
    } else {
        (KindView::Other, i + 1)
    }
}

// ---------------------------------------------------------------------------
// Indentation
// ---------------------------------------------------------------------------

/// First position at or after `i` that holds neither a space nor a tab.
pub open spec fn blank_end(s: Seq<u8>, i: int) -> int
    decreases s.len() - i,
{
    if i < s.len() && (s[i] == ' ' as u8 || s[i] == '\t' as u8) {
        blank_end(s, i + 1)
    } else {
        i
    }
}

/// The line that starts at `i` holds more than blanks and a comment.
pub open spec fn is_significant(s: Seq<u8>, i: int) -> bool {
    let e = blank_end(s, i);
    e < s.len() && s[e] != '\n' as u8 && s[e] != '\r' as u8 && s[e] != '#' as u8
}

/// The open indentation levels that remain when a line is indented by `col` columns.
pub open spec fn pop_deeper(indents: Seq<int>, col: int) -> Seq<int>
    decreases indents.len(),
{
    if indents.len() > 1 && indents.last() > col {
        pop_deeper(indents.drop_last(), col)
    } else {
        indents
    }
}

/// `n` zero-width dedent tokens at position `p`.
pub open spec fn dedents(s: Seq<u8>, p: int, n: int) -> Seq<TokenView> {
    Seq::new(
        n as nat,
        |k: int| TokenView { kind: KindView::Dedent, start: p, end: p, line: line_at(s, p) },
    )
}

pub proof fn lemma_pop_deeper(indents: Seq<int>, col: int)
    ensures
        pop_deeper(indents, col).len() <= indents.len(),
        indents.len() >= 1 ==> pop_deeper(indents, col).len() >= 1,
    decreases indents.len(),
{
    if indents.len() > 1 && indents.last() > col {
        lemma_pop_deeper(indents.drop_last(), col);
    }
}

pub proof fn lemma_dedents_push(s: Seq<u8>, p: int, n: int)
    requires
        0 <= n,
    ensures
        dedents(s, p, n + 1) == dedents(s, p, n).push(
            TokenView { kind: KindView::Dedent, start: p, end: p, line: line_at(s, p) },
        ),
{
    assert(dedents(s, p, n + 1) =~= dedents(s, p, n).push(
        TokenView { kind: KindView::Dedent, start: p, end: p, line: line_at(s, p) },
    ));
}

/// Indentation levels open after the start of the logical line at `p`.
pub open spec fn indents_after(s: Seq<u8>, p: int, indents: Seq<int>) -> Seq<int> {
    let col = blank_end(s, p) - p;
    let top = if indents.len() > 0 {
        indents.last()
    } else {
        0
    };
    if !is_significant(s, p) {
        indents
    } else if col > top {
        indents.push(col)
    } else {
        pop_deeper(indents, col)
    }
}

/// Tokens that the start of the logical line at `p` gives rise to.
pub open spec fn indent_tokens(s: Seq<u8>, p: int, indents: Seq<int>) -> Seq<TokenView> {
    let after = indents_after(s, p, indents);
    if after.len() > indents.len() {
        seq![TokenView { kind: KindView::Indent, start: p, end: p, line: line_at(s, p) }]
    } else {
        dedents(s, p, indents.len() - after.len())
    }
}

// ---------------------------------------------------------------------------
// The token sequence
// ---------------------------------------------------------------------------

/// Where a tokenizer stands: its position and, for Python, the open indentation levels, the
/// bracket depth, and whether a logical line starts at the position.
pub struct LexState {
    pub pos: int,
    pub indents: Seq<int>,
    pub depth: int,
    pub fresh: bool,
}

/// State at the beginning of a text.
pub open spec fn lex_start(python: bool) -> LexState {
    LexState {
        pos: 0,
        indents: if python {
            seq![0int]
        } else {
            seq![]
        },
        depth: 0,
        fresh: python,
    }
}

/// Bracket depth after a token that starts with `b`; a closing bracket without an opening one is
/// ignored.
pub open spec fn depth_after(python: bool, depth: int, b: u8) -> int {
    if !python {
        depth
    } else if b == '{' as u8 || b == '(' as u8 || b == '[' as u8 {
        depth + 1
    } else if (b == '}' as u8 || b == ')' as u8 || b == ']' as u8) && depth > 0 {
        depth - 1
    } else {
        depth
    }
}

/// A logical line of a Python text starts here.
pub open spec fn starts_line(python: bool, st: LexState) -> bool {
    python && st.fresh && st.depth == 0
}

/// Tokens that arise at `st` without consuming a byte.
pub open spec fn lead_tokens(s: Seq<u8>, python: bool, st: LexState) -> Seq<TokenView> {
    if starts_line(python, st) {
        indent_tokens(s, st.pos, st.indents)
    } else {
        seq![]
    }
}

/// `st` once its indentation has been taken into account.
pub open spec fn settle(s: Seq<u8>, python: bool, st: LexState) -> LexState {
    if starts_line(python, st) {
        LexState { indents: indents_after(s, st.pos, st.indents), fresh: false, ..st }
    } else {
        st
    }
}

/// A newline ends a logical line here: the text is Python, and no bracket is open.
pub open spec fn newline_counts(python: bool, st: LexState) -> bool {
    python && st.depth == 0
}

/// The newline at the position of `st` ends a logical line of a Python text.
pub open spec fn ends_line(s: Seq<u8>, python: bool, st: LexState) -> bool {
    s[st.pos] == '\n' as u8 && newline_counts(python, st)
}

/// Tokens that consume the bytes at the position of the settled state `st`: one, or none where a
/// plain whitespace byte is skipped.
pub open spec fn own_tokens(s: Seq<u8>, python: bool, st: LexState) -> Seq<TokenView> {
    let p = st.pos;
    if is_space(s[p]) {
        if ends_line(s, python, st) {
            seq![
                TokenView { kind: KindView::Semicolon, start: p, end: p + 1, line: line_at(s, p) },
            ]
        } else {
            seq![]
        }
    } else {
        seq![
            TokenView {
                kind: token_at(s, newline_counts(python, st), p).0,
                start: p,
                end: token_at(s, newline_counts(python, st), p).1,
                line: line_at(s, p),
            },
        ]
    }
}

/// State after the bytes at the position of the settled state `st`.
pub open spec fn next_state(s: Seq<u8>, python: bool, st: LexState) -> LexState {
    let p = st.pos;
    if is_space(s[p]) {
        LexState { pos: p + 1, fresh: st.fresh || ends_line(s, python, st), ..st }
    } else {
        LexState {
            pos: token_at(s, newline_counts(python, st), p).1,
            depth: depth_after(python, st.depth, s[p]),
            ..st
        }
    }
}

/// All tokens from `st` to the end of the text, where every open indentation level is closed.
pub open spec fn lex_from(s: Seq<u8>, python: bool, st: LexState) -> Seq<TokenView>
    decreases s.len() - st.pos,
    when 0 <= st.pos
{
    if st.pos >= s.len() {
        if st.indents.len() > 1 {
            dedents(s, st.pos, st.indents.len() - 1)
        } else {
            seq![]
        }
    } else {
        let settled = settle(s, python, st);
        let next = next_state(s, python, settled);
        proof {
            lemma_token_at(s, newline_counts(python, st), st.pos);
        }
        lead_tokens(s, python, st) + own_tokens(s, python, settled) + lex_from(s, python, next)
    }
}

/// Bounds of the comments among `tokens`, or else of the string literals, in order.
pub open spec fn token_ranges(tokens: Seq<TokenView>, comments: bool) -> Seq<(int, int)>
    decreases tokens.len(),
{
    if tokens.len() == 0 {
        seq![]
    } else {
        let t = tokens.last();
        let rest = token_ranges(tokens.drop_last(), comments);
        if (comments && t.kind is Comment) || (!comments && t.kind is StringLiteral) {
            rest.push((t.start, t.end))
        } else {
            rest
        }
    }
}

/// What tokenizing `s` yields.
pub open spec fn lex(s: Seq<u8>, python: bool) -> LexView {
    let tokens = lex_from(s, python, lex_start(python));
    LexView {
        tokens,
        comments: token_ranges(tokens, true),
        strings: token_ranges(tokens, false),
    }
}

/// Tokens of other kinds do not contribute to the ranges.
pub proof fn lemma_ranges_skip(tokens: Seq<TokenView>, more: Seq<TokenView>)
    requires
        forall|i: int|
            0 <= i < more.len() ==> !(#[trigger] more[i].kind is Comment)
                && !(more[i].kind is StringLiteral),
    ensures
        token_ranges(tokens + more, true) == token_ranges(tokens, true),
        token_ranges(tokens + more, false) == token_ranges(tokens, false),
    decreases more.len(),
{
    if more.len() == 0 {
        assert(tokens + more =~= tokens);
    } else {
        assert((tokens + more).drop_last() =~= tokens + more.drop_last());
        assert((tokens + more).last() == more[more.len() - 1]);
        lemma_ranges_skip(tokens, more.drop_last());
    }
}

// ---------------------------------------------------------------------------
// Every token makes progress and stays inside the text
// ---------------------------------------------------------------------------

pub proof fn lemma_newlines_bounds(s: Seq<u8>, p: int, q: int)
    requires
        0 <= p <= q <= s.len(),
    ensures
        0 <= newlines(s, p) <= newlines(s, q) <= q,
        newlines(s, q) - newlines(s, p) <= q - p,
    decreases q,
{
    if q > p {
        lemma_newlines_bounds(s, p, q - 1);
    } else if p > 0 {
        lemma_newlines_bounds(s, p - 1, p - 1);
    }
}

pub proof fn lemma_index_from(s: Seq<u8>, i: int, b: u8)
    requires
        0 <= i <= s.len(),
    ensures
        i <= index_from(s, i, b) <= s.len(),
        forall|k: int| i <= k < index_from(s, i, b) ==> s[k] != b,
        index_from(s, i, b) < s.len() ==> s[index_from(s, i, b)] == b,
    decreases s.len() - i,
{
    if i < s.len() && s[i] != b {
        lemma_index_from(s, i + 1, b);
    }
}

pub proof fn lemma_block_end(s: Seq<u8>, i: int)
    requires
        0 <= i <= s.len(),
    ensures
        i <= block_end(s, i) <= s.len(),
    decreases s.len() - i,
{
    if i < s.len() && !(s[i] == '*' as u8 && i + 1 < s.len() && s[i + 1] == '/' as u8) {
        lemma_block_end(s, i + 1);
    }
}

pub proof fn lemma_string_end(s: Seq<u8>, i: int, delim: u8)
    requires
        0 <= i,
    ensures
        string_end(s, i, delim) <= s.len(),
        i <= s.len() ==> i <= string_end(s, i, delim),
        i >= s.len() ==> string_end(s, i, delim) == s.len(),
    decreases s.len() + 1 - i,
{
    if i < s.len() {
        if s[i] == '\\' as u8 {
            lemma_string_end(s, i + 2, delim);
        } else if s[i] != delim {
            lemma_string_end(s, i + 1, delim);
        }
    }
}

pub proof fn lemma_triple_end(s: Seq<u8>, i: int, delim: u8)
    requires
        0 <= i,
    ensures
        triple_end(s, i, delim) <= s.len(),
        i <= s.len() ==> i <= triple_end(s, i, delim),
        i >= s.len() ==> triple_end(s, i, delim) == s.len(),
    decreases s.len() + 1 - i,
{
    if i < s.len() {
        lemma_triple_end(s, i + 2, delim);
        lemma_triple_end(s, i + 1, delim);
    }
}

pub proof fn lemma_literal_end(s: Seq<u8>, i: int, delim: u8)
    requires
        0 <= i <= s.len(),
    ensures
        i <= literal_end(s, i, delim) <= s.len(),
{
    lemma_triple_end(s, i + 2, delim);
    lemma_string_end(s, i, delim);
}

pub proof fn lemma_raw_close(s: Seq<u8>, i: int, tail: Seq<u8>)
    requires
        0 <= i,
    ensures
        raw_close(s, i, tail) <= s.len(),
        i <= s.len() ==> i <= raw_close(s, i, tail),
        i >= s.len() ==> raw_close(s, i, tail) == s.len(),
    decreases s.len() - i,
{
    if i < s.len() {
        lemma_raw_close(s, i + 1, tail);
    }
}

pub proof fn lemma_raw_end(s: Seq<u8>, i: int)
    requires
        0 <= i <= s.len(),
    ensures
        i <= raw_end(s, i) <= s.len(),
{
    lemma_index_from(s, i, '(' as u8);
    let open = index_from(s, i, '(' as u8);
    lemma_raw_close(s, open + 1, s.subrange(i, open).push('"' as u8));
}

pub proof fn lemma_directive_stop(s: Seq<u8>, i: int)
    requires
        0 <= i <= s.len(),
    ensures
        i <= directive_stop(s, i) <= s.len(),
        directive_stop(s, i) < s.len() ==> s[directive_stop(s, i)] == '\n' as u8,
        forall|k: int|
            i <= k < directive_stop(s, i) && s[k] == '\n' as u8 ==> #[trigger] is_continued(s, k),
    decreases s.len() - i,
{
    if i < s.len() {
        if s[i] == '\\' as u8 {
            lemma_directive_stop(s, past_line_break(s, i + 1));
        } else if s[i] != '\n' as u8 {
            lemma_directive_stop(s, i + 1);
        }
    }
}

pub proof fn lemma_word_end(s: Seq<u8>, i: int)
    requires
        0 <= i <= s.len(),
    ensures
        i <= word_end(s, i) <= s.len(),
        forall|k: int| i <= k < word_end(s, i) ==> is_word_byte(s[k]),
    decreases s.len() - i,
{
    if i < s.len() && is_word_byte(s[i]) {
        lemma_word_end(s, i + 1);
    }
}

pub proof fn lemma_blank_end(s: Seq<u8>, i: int)
    requires
        0 <= i <= s.len(),
    ensures
        i <= blank_end(s, i) <= s.len(),
    decreases s.len() - i,
{
    if i < s.len() && (s[i] == ' ' as u8 || s[i] == '\t' as u8) {
        lemma_blank_end(s, i + 1);
    }
}

/// A token covers at least one byte and ends inside the text.
pub proof fn lemma_token_at(s: Seq<u8>, logical: bool, i: int)
    requires
        0 <= i < s.len(),
    ensures
        i < token_at(s, logical, i).1 <= s.len(),
        !(token_at(s, logical, i).0 is Indent) && !(token_at(s, logical, i).0 is Dedent),
{
    if i + 2 <= s.len() {
        lemma_index_from(s, i + 2, '\n' as u8);
        lemma_block_end(s, i + 2);
    }
    lemma_index_from(s, i + 1, '`' as u8);
    lemma_index_from(s, i + 1, '\n' as u8);
    lemma_literal_end(s, i + 1, s[i]);
    lemma_directive_stop(s, i + 1);
    lemma_word_end(s, i + 1);
    let e = word_end(s, i + 1);
    if e < s.len() {
        lemma_raw_end(s, e + 1);
        lemma_literal_end(s, e + 1, s[e]);
    }
}

} // verus!
