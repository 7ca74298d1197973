//! Single-pass byte-level tokenizer for C-like source files and Python.
//!
//! The lexer only distinguishes tokens that the scope parser or the engine interpret; all other
//! source text collapses into [`TokenKind::Other`].  One call of [`Lexer::tokenize`] produces a
//! [`LexOutput`] with three views of the same bytes: the tokens, the comment ranges and the
//! string literal ranges.
//!
//! In Python mode the lexer also tracks logical lines: it emits [`TokenKind::Indent`] and
//! [`TokenKind::Dedent`] where the indentation changes, and a [`TokenKind::Semicolon`] at the end
//! of each logical line, with or without a comment behind the code.  Inside brackets both are
//! suppressed.

use crate::lex_laws;
use crate::lex_spec;
use crate::lex_spec::{KindView, LexState, LexView, TokenView};
use crate::ranges;
use crate::text::str_eq;
use std::ops::Range;
use vstd::prelude::*;
use vstd::string::*;

verus! {

// ---------------------------------------------------------------------------
// Types
// ---------------------------------------------------------------------------

/// Tokens produced by the lexer.
#[derive(Debug, PartialEq)]
pub enum TokenKind {
    /// Identifier or keyword
    Word(String),
    /// `{`
    OpenBrace,
    /// `}`
    CloseBrace,
    /// `(`
    OpenParen,
    /// `)`
    CloseParen,
    /// `;`, or the end of a logical line in Python mode
    Semicolon,
    /// `:`
    Colon,
    /// Any quoted literal (single, double, triple, raw, prefixed)
    StringLiteral,
    /// `// …` or `/* … */`
    Comment,
    /// `# …` to the end of its line, continued lines included; the newline that ends it is left out
    /// where it ends a logical line of Python
    Preprocessor,
    /// Python only: indentation increased
    Indent,
    /// Python only: indentation decreased (zero-width, one per closed level)
    Dedent,
    /// Anything else
    Other,
}

impl View for TokenKind {
    type V = KindView;

    open spec fn view(&self) -> KindView {
        match self {
            TokenKind::Word(w) => KindView::Word(w@),
            TokenKind::OpenBrace => KindView::OpenBrace,
            TokenKind::CloseBrace => KindView::CloseBrace,
            TokenKind::OpenParen => KindView::OpenParen,
            TokenKind::CloseParen => KindView::CloseParen,
            TokenKind::Semicolon => KindView::Semicolon,
            TokenKind::Colon => KindView::Colon,
            TokenKind::StringLiteral => KindView::StringLiteral,
            TokenKind::Comment => KindView::Comment,
            TokenKind::Preprocessor => KindView::Preprocessor,
            TokenKind::Indent => KindView::Indent,
            TokenKind::Dedent => KindView::Dedent,
            TokenKind::Other => KindView::Other,
        }
    }
}

impl Clone for TokenKind {
    fn clone(&self) -> (r: Self)
        ensures
            r@ == self@,
    {
        match self {
            TokenKind::Word(w) => TokenKind::Word(w.clone()),
            TokenKind::OpenBrace => TokenKind::OpenBrace,
            TokenKind::CloseBrace => TokenKind::CloseBrace,
            TokenKind::OpenParen => TokenKind::OpenParen,
            TokenKind::CloseParen => TokenKind::CloseParen,
            TokenKind::Semicolon => TokenKind::Semicolon,
            TokenKind::Colon => TokenKind::Colon,
            TokenKind::StringLiteral => TokenKind::StringLiteral,
            TokenKind::Comment => TokenKind::Comment,
            TokenKind::Preprocessor => TokenKind::Preprocessor,
            TokenKind::Indent => TokenKind::Indent,
            TokenKind::Dedent => TokenKind::Dedent,
            TokenKind::Other => TokenKind::Other,
        }
    }
}

/// One token with its place in the source.
#[derive(Debug)]
pub struct Token {
    pub kind: TokenKind,
    /// Byte offset of the first byte of this token
    pub start: usize,
    /// Byte offset one past the last byte of this token
    pub end: usize,
    /// 1-based line number of the first byte
    pub line: u32,
}

impl View for Token {
    type V = TokenView;

    open spec fn view(&self) -> TokenView {
        TokenView {
            kind: self.kind@,
            start: self.start as int,
            end: self.end as int,
            line: self.line as int,
        }
    }
}

impl Clone for Token {
    fn clone(&self) -> (r: Self)
        ensures
            r@ == self@,
    {
        Token { kind: self.kind.clone(), start: self.start, end: self.end, line: self.line }
    }
}

/// The views of a sequence of tokens.
pub open spec fn token_views(tokens: Seq<Token>) -> Seq<TokenView> {
    tokens.map_values(|t: Token| t@)
}

proof fn lemma_token_views_push(tokens: Seq<Token>, t: Token)
    ensures
        token_views(tokens.push(t)) == token_views(tokens).push(t@),
{
    assert(token_views(tokens.push(t)) =~= token_views(tokens).push(t@));
}

/// The bounds of a sequence of ranges.
pub open spec fn range_views(ranges: Seq<Range<usize>>) -> Seq<(int, int)> {
    ranges.map_values(|r: Range<usize>| (r.start as int, r.end as int))
}

/// Everything the rest of the pipeline needs from a single tokenization pass.
pub struct LexOutput {
    pub tokens: Vec<Token>,
    /// Byte ranges of comments, sorted and non-overlapping.
    pub comment_ranges: Vec<Range<usize>>,
    /// Byte ranges of string and character literals, sorted and non-overlapping.
    pub string_ranges: Vec<Range<usize>>,
}

impl View for LexOutput {
    type V = LexView;

    open spec fn view(&self) -> LexView {
        LexView {
            tokens: token_views(self.tokens@),
            comments: range_views(self.comment_ranges@),
            strings: range_views(self.string_ranges@),
        }
    }
}

impl LexOutput {
    /// The comment ranges are sorted and non-overlapping, and so are the string ranges.
    pub open spec fn wf(&self) -> bool {
        ranges::disjoint_sorted(self@.comments) && ranges::disjoint_sorted(self@.strings)
    }
}

/// Stateful tokenizer.  Create with [`Lexer::new`] and consume with [`Lexer::tokenize`].
pub struct Lexer<'src> {
    src: &'src [u8],
    pos: usize,
    line: u32,
    python_mode: bool,
    /// Open indentation levels in columns; 0 is always at the bottom in Python mode.
    indent_stack: Vec<usize>,
    /// Depth of `( ) [ ] { }`, tracked in Python mode only.
    paren_depth: usize,
    at_line_start: bool,
}

// ---------------------------------------------------------------------------
// Tokenizer
// ---------------------------------------------------------------------------

impl<'src> Lexer<'src> {
    /// The text to tokenize.
    pub closed spec fn source(&self) -> Seq<u8> {
        self.src@
    }

    /// Python mode is on.
    pub closed spec fn python(&self) -> bool {
        self.python_mode
    }

    /// Nothing has been consumed yet.
    pub closed spec fn is_fresh(&self) -> bool {
        self.wf() && self.state() == lex_spec::lex_start(self.python_mode)
    }

    spec fn wf(&self) -> bool {
        &&& self.pos <= self.src@.len()
        &&& self.line == lex_spec::line_at(self.src@, self.pos as int)
        &&& lex_spec::line_at(self.src@, self.src@.len() as int) <= u32::MAX
        &&& self.paren_depth <= self.pos
        &&& !self.python_mode ==> self.indent_stack@.len() == 0
    }

    spec fn state(&self) -> LexState {
        LexState {
            pos: self.pos as int,
            indents: self.indent_stack@.map_values(|c: usize| c as int),
            depth: self.paren_depth as int,
            fresh: self.at_line_start,
        }
    }

    /// Only the position has changed since `before`, to `to`.
    spec fn moved(&self, before: &Self, to: int) -> bool {
        &&& self.wf()
        &&& self.src@ == before.src@
        &&& self.python_mode == before.python_mode
        &&& self.indent_stack@ == before.indent_stack@
        &&& self.paren_depth == before.paren_depth
        &&& self.at_line_start == before.at_line_start
        &&& before.pos <= self.pos
        &&& self.pos == to
    }

    /// Create a new lexer.  Pass `python_mode = true` for `.py`/`.pyw`/`.pyi` files.
    pub fn new(src: &'src str, python_mode: bool) -> (r: Self)
        requires
            lex_spec::line_at(src.spec_bytes(), src.spec_bytes().len() as int) <= u32::MAX,
        ensures
            r.source() == src.spec_bytes(),
            r.python() == python_mode,
            r.is_fresh(),
    {
        let mut indent_stack: Vec<usize> = Vec::new();
        if python_mode {
            indent_stack.push(0);
        }
        let r = Lexer {
            src: src.as_bytes(),
            pos: 0,
            line: 1,
            python_mode,
            indent_stack,
            paren_depth: 0,
            at_line_start: python_mode,
        };
        assert(r.state().indents =~= lex_spec::lex_start(python_mode).indents);
        r
    }

    fn peek(&self) -> (r: Option<u8>)
        requires
            self.wf(),
        ensures
            r == (if self.pos < self.src@.len() {
                Some(self.src@[self.pos as int])
            } else {
                None
            }),
    {
        if self.pos < self.src.len() {
            Some(self.src[self.pos])
        } else {
            None
        }
    }

    fn advance(&mut self) -> (r: Option<u8>)
        requires
            old(self).wf(),
        ensures
            old(self).pos < old(self).src@.len() ==> {
                &&& r == Some(old(self).src@[old(self).pos as int])
                &&& final(self).moved(old(self), old(self).pos + 1)
            },
            old(self).pos == old(self).src@.len() ==> {
                &&& r is None
                &&& final(self).moved(old(self), old(self).pos as int)
            },
    {
        if self.pos >= self.src.len() {
            return None;
        }
        let b: u8 = self.src[self.pos];
        proof {
            lex_spec::lemma_newlines_bounds(self.src@, self.pos + 1, self.src@.len() as int);
        }
        self.pos = self.pos + 1;
        if b == '\n' as u8 {
            self.line = self.line + 1;
        }
        Some(b)
    }

    /// Consume bytes up to and including the first `b`.
    fn skip_past(&mut self, b: u8)
        requires
            old(self).wf(),
        ensures
            final(self).moved(old(self), lex_spec::past(old(self).src@, old(self).pos as int, b)),
    {
        while self.pos < self.src.len()
            invariant_except_break
                self.moved(old(self), self.pos as int),
                lex_spec::past(self.src@, self.pos as int, b) == lex_spec::past(
                    old(self).src@,
                    old(self).pos as int,
                    b,
                ),
            ensures
                self.moved(old(self), lex_spec::past(old(self).src@, old(self).pos as int, b)),
            decreases self.src@.len() - self.pos,
        {
            if self.advance() == Some(b) {
                break;
            }
        }
    }

    /// Consume bytes up to the next newline, which is left for the logical line to end with.
    fn skip_to_newline(&mut self)
        requires
            old(self).wf(),
        ensures
            final(self).moved(
                old(self),
                lex_spec::index_from(old(self).src@, old(self).pos as int, '\n' as u8),
            ),
    {
        while self.pos < self.src.len() && self.src[self.pos] != '\n' as u8
            invariant
                self.moved(old(self), self.pos as int),
                lex_spec::index_from(self.src@, self.pos as int, '\n' as u8)
                    == lex_spec::index_from(old(self).src@, old(self).pos as int, '\n' as u8),
            decreases self.src@.len() - self.pos,
        {
            self.advance();
        }
    }

    /// Consume bytes to end of line after `//` has been consumed.
    fn skip_line_comment(&mut self)
        requires
            old(self).wf(),
        ensures
            final(self).moved(old(self), lex_spec::past(old(self).src@, old(self).pos as int, '\n' as u8)),
    {
        self.skip_past('\n' as u8);
    }

    /// Consume bytes up to and including `*/` after `/*` has been consumed.
    fn skip_block_comment(&mut self)
        requires
            old(self).wf(),
        ensures
            final(self).moved(old(self), lex_spec::block_end(old(self).src@, old(self).pos as int)),
    {
        while self.pos < self.src.len()
            invariant_except_break
                self.moved(old(self), self.pos as int),
                lex_spec::block_end(self.src@, self.pos as int) == lex_spec::block_end(
                    old(self).src@,
                    old(self).pos as int,
                ),
            ensures
                self.moved(old(self), lex_spec::block_end(old(self).src@, old(self).pos as int)),
            decreases self.src@.len() - self.pos,
        {
            if self.advance() == Some('*' as u8) && self.peek() == Some('/' as u8) {
                self.advance();
                break;
            }
        }
    }

    /// Consume a backtick raw string up to the closing backtick; it has no escape sequences.
    fn skip_backtick_string(&mut self)
        requires
            old(self).wf(),
        ensures
            final(self).moved(
                old(self),
                lex_spec::past(old(self).src@, old(self).pos as int, '`' as u8),
            ),
    {
        self.skip_past('`' as u8);
    }

    /// Consume a quoted literal up to the matching unescaped `delim`, after the opening one.
    fn skip_string(&mut self, delim: u8)
        requires
            old(self).wf(),
        ensures
            final(self).moved(
                old(self),
                lex_spec::string_end(old(self).src@, old(self).pos as int, delim),
            ),
    {
        while self.pos < self.src.len()
            invariant_except_break
                self.moved(old(self), self.pos as int),
                lex_spec::string_end(self.src@, self.pos as int, delim) == lex_spec::string_end(
                    old(self).src@,
                    old(self).pos as int,
                    delim,
                ),
            ensures
                self.moved(
                    old(self),
                    lex_spec::string_end(old(self).src@, old(self).pos as int, delim),
                ),
            decreases self.src@.len() - self.pos,
        {
            let ghost at = self.pos as int;
            let b = self.advance();
            if b == Some('\\' as u8) {
                proof {
                    lex_spec::lemma_string_end(self.src@, at + 2, delim);
                }
                self.advance();
            } else if b == Some(delim) {
                break;
            }
        }
    }

    /// Consume a triple-quoted string after its three opening delimiters.
    fn skip_triple_string(&mut self, delim: u8)
        requires
            old(self).wf(),
            delim != '\\' as u8,
        ensures
            final(self).moved(
                old(self),
                lex_spec::triple_end(old(self).src@, old(self).pos as int, delim),
            ),
    {
        while self.pos < self.src.len()
            invariant_except_break
                delim != '\\' as u8,
                self.moved(old(self), self.pos as int),
                lex_spec::triple_end(self.src@, self.pos as int, delim) == lex_spec::triple_end(
                    old(self).src@,
                    old(self).pos as int,
                    delim,
                ),
            ensures
                self.moved(
                    old(self),
                    lex_spec::triple_end(old(self).src@, old(self).pos as int, delim),
                ),
            decreases self.src@.len() - self.pos,
        {
            let ghost at = self.pos as int;
            let b = self.advance();
            if b == Some('\\' as u8) {
                proof {
                    lex_spec::lemma_triple_end(self.src@, at + 2, delim);
                }
                self.advance();
            } else if b == Some(delim) && self.peek() == Some(delim) {
                self.advance();
                if self.peek() == Some(delim) {
                    self.advance();
                    break;
                }
            }
        }
    }

    /// Consume a quoted literal after its opening delimiter, triple-quoted ones included.
    fn consume_quoted(&mut self, delim: u8)
        requires
            old(self).wf(),
            delim != '\\' as u8,
        ensures
            final(self).moved(
                old(self),
                lex_spec::literal_end(old(self).src@, old(self).pos as int, delim),
            ),
    {
        if self.peek() == Some(delim) {
            self.advance();
            if self.peek() == Some(delim) {
                self.advance();
                self.skip_triple_string(delim);
            }
        } else {
            self.skip_string(delim);
        }
    }

    /// The bytes of `tail` follow at the current position.
    fn looking_at(&self, tail: &Vec<u8>) -> (r: bool)
        requires
            self.wf(),
        ensures
            r == lex_spec::occurs_at(self.src@, self.pos as int, tail@),
    {
        if tail.len() > self.src.len() - self.pos {
            return false;
        }
        let mut i: usize = 0;
        while i < tail.len()
            invariant
                self.wf(),
                self.pos + tail@.len() <= self.src@.len() <= usize::MAX,
                i <= tail@.len(),
                forall|k: int| 0 <= k < i ==> self.src@[self.pos + k] == tail@[k],
            decreases tail@.len() - i,
        {
            if self.src[self.pos + i] != tail[i] {
                proof {
                    let part = self.src@.subrange(self.pos as int, self.pos + tail@.len());
                    assert(part[i as int] != tail@[i as int]);
                }
                return false;
            }
            i = i + 1;
        }
        assert(self.src@.subrange(self.pos as int, self.pos + tail@.len()) =~= tail@);
        true
    }

    /// Consume a raw string after its opening `"`: a delimiter, `(`, the contents, and the same
    /// delimiter between `)` and `"`.
    fn skip_raw_string(&mut self)
        requires
            old(self).wf(),
        ensures
            final(self).moved(old(self), lex_spec::raw_end(old(self).src@, old(self).pos as int)),
    {
        let ghost s = self.src@;
        let ghost start = self.pos as int;
        let mut tail: Vec<u8> = Vec::new();
        while self.pos < self.src.len()
            invariant_except_break
                s == old(self).src@,
                start == old(self).pos,
                self.moved(old(self), self.pos as int),
                tail@ == s.subrange(start, self.pos as int),
                lex_spec::index_from(s, self.pos as int, '(' as u8) == lex_spec::index_from(
                    s,
                    start,
                    '(' as u8,
                ),
            ensures
                self.moved(old(self), lex_spec::index_from(s, start, '(' as u8)),
                tail@ == s.subrange(start, self.pos as int),
            decreases self.src@.len() - self.pos,
        {
            let b: u8 = self.src[self.pos];
            if b == '(' as u8 {
                break;
            }
            tail.push(b);
            self.advance();
            assert(tail@ =~= s.subrange(start, self.pos as int));
        }
        self.advance();
        tail.push('"' as u8);

        let ghost open = lex_spec::index_from(s, start, '(' as u8);
        proof {
            lex_spec::lemma_index_from(s, start, '(' as u8);
            lex_spec::lemma_raw_close(s, open + 1, tail@);
        }
        while self.pos < self.src.len()
            invariant_except_break
                s == old(self).src@,
                self.moved(old(self), self.pos as int),
                tail@.len() >= 1,
                lex_spec::raw_close(s, self.pos as int, tail@) == lex_spec::raw_close(
                    s,
                    open + 1,
                    tail@,
                ),
            ensures
                self.moved(old(self), lex_spec::raw_close(s, open + 1, tail@)),
            decreases self.src@.len() - self.pos,
        {
            let ghost at = self.pos as int;
            if self.advance() == Some(')' as u8) && self.looking_at(&tail) {
                let mut left: usize = tail.len();
                while left > 0
                    invariant
                        s == old(self).src@,
                        self.moved(old(self), self.pos as int),
                        left <= tail@.len(),
                        at + 1 + tail@.len() <= s.len(),
                        self.pos == at + 1 + tail@.len() - left,
                    decreases left,
                {
                    self.advance();
                    left = left - 1;
                }
                break;
            }
        }
    }

    /// Consume a preprocessor directive, continued lines included, up to the newline that ends it.
    fn skip_preprocessor(&mut self)
        requires
            old(self).wf(),
        ensures
            final(self).moved(
                old(self),
                lex_spec::directive_stop(old(self).src@, old(self).pos as int),
            ),
    {
        while self.pos < self.src.len() && self.src[self.pos] != '\n' as u8
            invariant
                self.moved(old(self), self.pos as int),
                lex_spec::directive_stop(self.src@, self.pos as int) == lex_spec::directive_stop(
                    old(self).src@,
                    old(self).pos as int,
                ),
            decreases self.src@.len() - self.pos,
        {
            let b = self.advance();
            if b == Some('\\' as u8) {
                if self.peek() == Some('\r' as u8) {
                    self.advance();
                }
                if self.peek() == Some('\n' as u8) {
                    self.advance();
                }
            }
        }
    }

    /// Read an identifier or keyword whose first byte, `first`, has been consumed.
    fn read_word(&mut self, first: u8) -> (word: String)
        requires
            old(self).wf(),
            old(self).pos > 0,
            old(self).src@[old(self).pos - 1] == first,
        ensures
            final(self).moved(old(self), lex_spec::word_end(old(self).src@, old(self).pos as int)),
            word@ == lex_spec::chars_of(old(self).src@, old(self).pos - 1, final(self).pos as int),
    {
        let ghost s = self.src@;
        let ghost start = self.pos - 1;
        let mut word = String::new();
        word.push(first as char);
        assert(word@ =~= lex_spec::chars_of(s, start, self.pos as int));
        while self.pos < self.src.len()
            invariant_except_break
                s == old(self).src@,
                start == old(self).pos - 1,
                self.moved(old(self), self.pos as int),
                word@ == lex_spec::chars_of(s, start, self.pos as int),
                lex_spec::word_end(s, self.pos as int) == lex_spec::word_end(s, start + 1),
            ensures
                self.moved(old(self), lex_spec::word_end(s, start + 1)),
                word@ == lex_spec::chars_of(s, start, self.pos as int),
            decreases self.src@.len() - self.pos,
        {
            let b: u8 = self.src[self.pos];
            if !is_word_byte(b) {
                break;
            }
            word.push(b as char);
            self.advance();
            assert(word@ =~= lex_spec::chars_of(s, start, self.pos as int));
        }
        word
    }

    /// After reading a word, check whether it is a string literal prefix.
    fn classify_word(&mut self, word: String) -> (kind: TokenKind)
        requires
            old(self).wf(),
        ensures
            final(self).moved(
                old(self),
                lex_spec::prefixed_token(old(self).src@, word@, old(self).pos as int).1,
            ),
            kind@ == lex_spec::prefixed_token(old(self).src@, word@, old(self).pos as int).0,
    {
        let w = word.as_str();
        if is_raw_prefix(w) && self.peek() == Some('"' as u8) {
            self.advance();
            self.skip_raw_string();
            return TokenKind::StringLiteral;
        }
        if is_c_prefix(w) || is_py_prefix(w) {
            if self.peek() == Some('"' as u8) {
                self.advance();
                self.consume_quoted('"' as u8);
                return TokenKind::StringLiteral;
            }
            if self.peek() == Some('\'' as u8) {
                self.advance();
                self.consume_quoted('\'' as u8);
                return TokenKind::StringLiteral;
            }
        }
        TokenKind::Word(word)
    }

    // ── Python indentation ──────────────────────────────────────────────────

    /// Count leading space and tab bytes without consuming them; a tab counts as one column.
    fn count_leading_whitespace(&self) -> (count: usize)
        requires
            self.wf(),
        ensures
            count == lex_spec::blank_end(self.src@, self.pos as int) - self.pos,
    {
        let mut p: usize = self.pos;
        while p < self.src.len() && (self.src[p] == ' ' as u8 || self.src[p] == '\t' as u8)
            invariant
                self.pos <= p <= self.src@.len(),
                lex_spec::blank_end(self.src@, p as int) == lex_spec::blank_end(
                    self.src@,
                    self.pos as int,
                ),
            decreases self.src@.len() - p,
        {
            p = p + 1;
        }
        p - self.pos
    }

    /// The first byte at or after the position that is neither a space nor a tab.
    fn peek_after_whitespace(&self) -> (r: Option<u8>)
        requires
            self.wf(),
        ensures
            ({
                let e = lex_spec::blank_end(self.src@, self.pos as int);
                r == (if e < self.src@.len() {
                    Some(self.src@[e])
                } else {
                    None
                })
            }),
    {
        proof {
            lex_spec::lemma_blank_end(self.src@, self.pos as int);
        }
        let end: usize = self.src.len();
        let p: usize = self.pos + self.count_leading_whitespace();
        if p < end {
            Some(self.src[p])
        } else {
            None
        }
    }

    /// Emit indentation tokens at the start of a logical line.  Blank lines and comment-only
    /// lines do not affect the open levels.
    fn begin_line(&mut self, tokens: &mut Vec<Token>)
        requires
            old(self).wf(),
            lex_spec::starts_line(old(self).python_mode, old(self).state()),
        ensures
            final(self).wf(),
            final(self).src@ == old(self).src@,
            final(self).python_mode == old(self).python_mode,
            final(self).state() == lex_spec::settle(
                old(self).src@,
                old(self).python_mode,
                old(self).state(),
            ),
            token_views(final(tokens)@) == token_views(old(tokens)@) + lex_spec::lead_tokens(
                old(self).src@,
                old(self).python_mode,
                old(self).state(),
            ),
    {
        let ghost s = self.src@;
        let ghost before = self.state();
        self.at_line_start = false;
        let col: usize = self.count_leading_whitespace();
        let significant = match self.peek_after_whitespace() {
            None => false,
            Some(b) => b != '\n' as u8 && b != '\r' as u8 && b != '#' as u8,
        };
        assert(significant == lex_spec::is_significant(s, before.pos));
        if significant {
            let depth: usize = self.indent_stack.len();
            let top: usize = if depth > 0 {
                self.indent_stack[depth - 1]
            } else {
                0
            };
            if col > top {
                self.indent_stack.push(col);
                tokens.push(
                    Token {
                        kind: TokenKind::Indent,
                        start: self.pos,
                        end: self.pos,
                        line: self.line,
                    },
                );
                assert(self.state().indents =~= before.indents.push(col as int));
                assert(token_views(tokens@) =~= token_views(old(tokens)@)
                    + lex_spec::indent_tokens(s, before.pos, before.indents));
            } else {
                proof {
                    lex_spec::lemma_pop_deeper(before.indents, col as int);
                }
                self.close_levels(tokens, col);
            }
        } else {
            assert(token_views(tokens@) =~= token_views(old(tokens)@) + lex_spec::indent_tokens(
                s,
                before.pos,
                before.indents,
            ));
        }
    }

    /// Close every indentation level deeper than `col`, with one dedent token for each.
    fn close_levels(&mut self, tokens: &mut Vec<Token>, col: usize)
        requires
            old(self).wf(),
        ensures
            final(self).wf(),
            final(self).src@ == old(self).src@,
            final(self).python_mode == old(self).python_mode,
            final(self).state() == (LexState {
                indents: lex_spec::pop_deeper(old(self).state().indents, col as int),
                ..old(self).state()
            }),
            token_views(final(tokens)@) == token_views(old(tokens)@) + lex_spec::dedents(
                old(self).src@,
                old(self).pos as int,
                old(self).state().indents.len() - final(self).state().indents.len(),
            ),
    {
        let ghost all = self.state().indents;
        while self.indent_stack.len() > 1 && self.indent_stack[self.indent_stack.len() - 1] > col
            invariant
                self.wf(),
                self.src@ == old(self).src@,
                self.python_mode == old(self).python_mode,
                self.pos == old(self).pos,
                self.paren_depth == old(self).paren_depth,
                self.at_line_start == old(self).at_line_start,
                all == old(self).state().indents,
                self.indent_stack@.len() <= all.len(),
                lex_spec::pop_deeper(self.state().indents, col as int) == lex_spec::pop_deeper(
                    all,
                    col as int,
                ),
                token_views(tokens@) =~= token_views(old(tokens)@) + lex_spec::dedents(
                    self.src@,
                    self.pos as int,
                    all.len() - self.indent_stack@.len(),
                ),
            decreases self.indent_stack@.len(),
        {
            let ghost open = self.state().indents;
            self.indent_stack.pop();
            assert(self.state().indents =~= open.drop_last());
            proof {
                lex_spec::lemma_dedents_push(self.src@, self.pos as int, all.len() - open.len());
            }
            let ghost emitted = tokens@;
            tokens.push(
                Token { kind: TokenKind::Dedent, start: self.pos, end: self.pos, line: self.line },
            );
            proof {
                lemma_token_views_push(emitted, tokens@.last());
            }
        }
    }

    // ── Token stream ────────────────────────────────────────────────────────

    /// Consume the token that starts with the non-whitespace byte `b` at the position.
    fn scan_token(&mut self, b: u8) -> (kind: TokenKind)
        requires
            old(self).wf(),
            old(self).pos < old(self).src@.len(),
            b == old(self).src@[old(self).pos as int],
            !lex_spec::is_space(b),
        ensures
            final(self).wf(),
            final(self).src@ == old(self).src@,
            final(self).python_mode == old(self).python_mode,
            final(self).state() == lex_spec::next_state(
                old(self).src@,
                old(self).python_mode,
                old(self).state(),
            ),
            kind@ == lex_spec::token_at(
                old(self).src@,
                lex_spec::newline_counts(old(self).python_mode, old(self).state()),
                old(self).pos as int,
            ).0,
    {
        let logical = self.python_mode && self.paren_depth == 0;
        self.advance();
        if self.python_mode {
            if b == '{' as u8 || b == '(' as u8 || b == '[' as u8 {
                self.paren_depth = self.paren_depth + 1;
            } else if (b == '}' as u8 || b == ')' as u8 || b == ']' as u8) && self.paren_depth > 0 {
                self.paren_depth = self.paren_depth - 1;
            }
        }
        if b == '{' as u8 {
            TokenKind::OpenBrace
        } else if b == '}' as u8 {
            TokenKind::CloseBrace
        } else if b == '(' as u8 {
            TokenKind::OpenParen
        } else if b == ')' as u8 {
            TokenKind::CloseParen
        } else if b == ';' as u8 {
            TokenKind::Semicolon
        } else if b == ':' as u8 {
            TokenKind::Colon
        } else if b == '/' as u8 {
            if self.peek() == Some('/' as u8) {
                self.advance();
                if logical {
                    self.skip_to_newline();
                } else {
                    self.skip_line_comment();
                }
                TokenKind::Comment
            } else if self.peek() == Some('*' as u8) {
                self.advance();
                self.skip_block_comment();
                TokenKind::Comment
            } else {
                TokenKind::Other
            }
        } else if b == '"' as u8 || b == '\'' as u8 {
            self.consume_quoted(b);
            TokenKind::StringLiteral
        } else if b == '`' as u8 {
            self.skip_backtick_string();
            TokenKind::StringLiteral
        } else if b == '#' as u8 {
            self.skip_preprocessor();
            if !logical {
                self.advance();
            }
            TokenKind::Preprocessor
        } else if is_word_start(b) {
            let word = self.read_word(b);
            self.classify_word(word)
        } else {
            TokenKind::Other
        }
    }

    /// Consume the source and produce a [`LexOutput`].
    pub fn tokenize(self) -> (out: LexOutput)
        requires
            self.is_fresh(),
        ensures
            out@ == lex_spec::lex(self.source(), self.python()),
            out.wf(),
    {
        let mut lx = self;
        let ghost s = lx.src@;
        let ghost python = lx.python_mode;
        let ghost all = lex_spec::lex_from(s, python, lex_spec::lex_start(python));
        let mut tokens: Vec<Token> = Vec::new();
        let mut comment_ranges: Vec<Range<usize>> = Vec::new();
        let mut string_ranges: Vec<Range<usize>> = Vec::new();
        assert(token_views(tokens@) + all =~= all);

        while lx.pos < lx.src.len()
            invariant
                lx.wf(),
                lx.src@ == s,
                lx.python_mode == python,
                token_views(tokens@) + lex_spec::lex_from(s, python, lx.state()) == all,
                range_views(comment_ranges@) == lex_spec::token_ranges(token_views(tokens@), true),
                range_views(string_ranges@) == lex_spec::token_ranges(token_views(tokens@), false),
            decreases s.len() - lx.pos,
        {
            let b: u8 = lx.src[lx.pos];
            let ghost st = lx.state();
            let ghost done = token_views(tokens@);
            proof {
                lex_spec::lemma_token_at(s, lex_spec::newline_counts(python, st), st.pos);
            }
            if lx.python_mode && lx.at_line_start && lx.paren_depth == 0 {
                lx.begin_line(&mut tokens);
            } else {
                assert(token_views(tokens@) =~= done + lex_spec::lead_tokens(s, python, st));
            }
            let ghost settled = lx.state();
            let ghost lead = lex_spec::lead_tokens(s, python, st);
            proof {
                lex_spec::lemma_ranges_skip(done, lead);
            }
            let start: usize = lx.pos;
            let line: u32 = lx.line;
            if is_space(b) {
                let ends_line = b == '\n' as u8 && lx.python_mode && lx.paren_depth == 0;
                lx.advance();
                if ends_line {
                    tokens.push(
                        Token { kind: TokenKind::Semicolon, start, end: start + 1, line },
                    );
                    lx.at_line_start = true;
                }
            } else {
                let kind = lx.scan_token(b);
                let end: usize = lx.pos;
                match &kind {
                    TokenKind::Comment => comment_ranges.push(start..end),
                    TokenKind::StringLiteral => string_ranges.push(start..end),
                    _ => {},
                }
                tokens.push(Token { kind, start, end, line });
            }
            let ghost own = lex_spec::own_tokens(s, python, settled);
            let ghost rest = lex_spec::lex_from(s, python, lx.state());
            proof {
                assert(lx.state() == lex_spec::next_state(s, python, settled));
                assert(token_views(tokens@) =~= done + lead + own);
                if own.len() == 1 {
                    assert(token_views(tokens@).drop_last() =~= done + lead);
                }
                assert(done + (lead + own + rest) =~= (done + lead + own) + rest);
            }
        }

        // Close the indentation levels that are still open at the end of the text.
        let ghost done = token_views(tokens@);
        let ghost open = lx.indent_stack@.len() as int;
        let ghost tail = lex_spec::lex_from(s, python, lx.state());
        while lx.indent_stack.len() > 1
            invariant
                lx.wf(),
                lx.src@ == s,
                lx.pos == s.len(),
                lx.indent_stack@.len() <= open,
                lx.indent_stack@.len() >= (if open > 1 { 1 } else { open }),
                token_views(tokens@) =~= done + lex_spec::dedents(
                    s,
                    s.len() as int,
                    open - lx.indent_stack@.len(),
                ),
            decreases lx.indent_stack@.len(),
        {
            proof {
                lex_spec::lemma_dedents_push(s, s.len() as int, open - lx.indent_stack@.len());
            }
            lx.indent_stack.pop();
            let ghost emitted = tokens@;
            tokens.push(
                Token { kind: TokenKind::Dedent, start: lx.pos, end: lx.pos, line: lx.line },
            );
            proof {
                lemma_token_views_push(emitted, tokens@.last());
            }
        }
        proof {
            assert(token_views(tokens@) =~= done + tail);
            lex_spec::lemma_ranges_skip(done, tail);
            lex_laws::law_ranges_sorted(s, python);
        }
        LexOutput { tokens, comment_ranges, string_ranges }
    }
}

// ---------------------------------------------------------------------------
// Byte and word classes
// ---------------------------------------------------------------------------

fn is_word_start(b: u8) -> (r: bool)
    ensures
        r == lex_spec::is_word_start(b),
{
    (b >= 'a' as u8 && b <= 'z' as u8) || (b >= 'A' as u8 && b <= 'Z' as u8) || b == '_' as u8
}

fn is_word_byte(b: u8) -> (r: bool)
    ensures
        r == lex_spec::is_word_byte(b),
{
    is_word_start(b) || (b >= '0' as u8 && b <= '9' as u8)
}

fn is_space(b: u8) -> (r: bool)
    ensures
        r == lex_spec::is_space(b),
{
    b == ' ' as u8 || b == '\t' as u8 || b == '\n' as u8 || b == '\r' as u8 || b == 12
}

fn is_raw_prefix(w: &str) -> (r: bool)
    ensures
        r == lex_spec::is_raw_prefix(w@),
{
    str_eq(w, "R") || str_eq(w, "LR") || str_eq(w, "uR") || str_eq(w, "UR") || str_eq(w, "u8R")
}

fn is_c_prefix(w: &str) -> (r: bool)
    ensures
        r == lex_spec::is_c_prefix(w@),
{
    str_eq(w, "L") || str_eq(w, "u") || str_eq(w, "U") || str_eq(w, "u8")
}

fn is_py_prefix(w: &str) -> (r: bool)
    ensures
        r == lex_spec::is_py_prefix(w@),
{
    str_eq(w, "b") || str_eq(w, "B") || str_eq(w, "f") || str_eq(w, "F") || str_eq(w, "r")
        || str_eq(w, "rb") || str_eq(w, "rB") || str_eq(w, "Rb") || str_eq(w, "RB")
        || str_eq(w, "br") || str_eq(w, "bR") || str_eq(w, "Br") || str_eq(w, "BR")
        || str_eq(w, "rf") || str_eq(w, "rF") || str_eq(w, "Rf") || str_eq(w, "RF")
        || str_eq(w, "fr") || str_eq(w, "fR") || str_eq(w, "Fr") || str_eq(w, "FR")
}

} // verus!
