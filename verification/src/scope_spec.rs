//! What the scope parser builds: how a header names a scope, and the tree of a token sequence.

use crate::lex_spec::{KindView, TokenView};
use crate::scope::ScopeKind;
use vstd::prelude::*;

verus! {

// ---------------------------------------------------------------------------
// Views
// ---------------------------------------------------------------------------

/// Mathematical counterpart of [`crate::scope::ScopeNode`].
pub struct ScopeView {
    pub kind: ScopeKind,
    pub name: Seq<char>,
    pub body_start: int,
    pub body_end: int,
    pub start_line: int,
    pub end_line: int,
    pub children: Seq<ScopeView>,
}

/// Mathematical counterpart of [`crate::scope::LanguageProfile`].
pub struct ProfileView {
    pub scope_keywords: Seq<(Seq<char>, ScopeKind)>,
    pub fn_keywords: Seq<Seq<char>>,
    pub control_flow: Seq<Seq<char>>,
}

/// Bounds of the contents of a scope.  The file root has no brace to leave out.
pub open spec fn body_of(node: ScopeView) -> (int, int) {
    if node.kind == ScopeKind::File {
        (node.body_start, node.body_end)
    } else {
        (node.body_start + 1, node.body_end)
    }
}

// ---------------------------------------------------------------------------
// Language profiles
// ---------------------------------------------------------------------------

pub open spec fn common_control_flow() -> Seq<Seq<char>> {
    seq!["if"@, "else"@, "for"@, "while"@, "do"@, "switch"@, "try"@, "catch"@]
}

pub open spec fn c_profile() -> ProfileView {
    ProfileView {
        scope_keywords: seq![
            ("namespace"@, ScopeKind::Namespace),
            ("class"@, ScopeKind::Class),
            ("struct"@, ScopeKind::Struct),
            ("union"@, ScopeKind::Union),
            ("interface"@, ScopeKind::Interface),
        ],
        fn_keywords: seq![],
        control_flow: seq![
            "if"@,
            "else"@,
            "for"@,
            "while"@,
            "do"@,
            "switch"@,
            "try"@,
            "catch"@,
            "case"@,
            "default"@,
            "__try"@,
            "__except"@,
            "__finally"@,
            "__attribute__"@,
            "__declspec"@,
        ],
    }
}

pub open spec fn csharp_profile() -> ProfileView {
    ProfileView {
        scope_keywords: seq![
            ("namespace"@, ScopeKind::Namespace),
            ("class"@, ScopeKind::Class),
            ("struct"@, ScopeKind::Struct),
            ("interface"@, ScopeKind::Interface),
            ("enum"@, ScopeKind::Enum),
            ("record"@, ScopeKind::Class),
        ],
        fn_keywords: seq![],
        control_flow: common_control_flow(),
    }
}

pub open spec fn java_profile() -> ProfileView {
    ProfileView {
        scope_keywords: seq![
            ("class"@, ScopeKind::Class),
            ("interface"@, ScopeKind::Interface),
            ("enum"@, ScopeKind::Enum),
        ],
        fn_keywords: seq![],
        control_flow: common_control_flow(),
    }
}

pub open spec fn go_profile() -> ProfileView {
    ProfileView {
        scope_keywords: seq![
            ("struct"@, ScopeKind::Struct),
            ("interface"@, ScopeKind::Interface),
        ],
        fn_keywords: seq!["func"@],
        control_flow: seq!["if"@, "else"@, "for"@, "switch"@, "select"@],
    }
}

pub open spec fn rust_profile() -> ProfileView {
    ProfileView {
        scope_keywords: seq![
            ("mod"@, ScopeKind::Namespace),
            ("impl"@, ScopeKind::Class),
            ("trait"@, ScopeKind::Interface),
            ("struct"@, ScopeKind::Struct),
            ("enum"@, ScopeKind::Enum),
            ("union"@, ScopeKind::Union),
        ],
        fn_keywords: seq!["fn"@],
        control_flow: common_control_flow(),
    }
}

pub open spec fn kotlin_profile() -> ProfileView {
    ProfileView {
        scope_keywords: seq![
            ("class"@, ScopeKind::Class),
            ("interface"@, ScopeKind::Interface),
            ("object"@, ScopeKind::Class),
            ("enum"@, ScopeKind::Enum),
        ],
        fn_keywords: seq!["fun"@],
        control_flow: seq!["if"@, "else"@, "for"@, "while"@, "do"@, "when"@, "try"@, "catch"@],
    }
}

pub open spec fn swift_profile() -> ProfileView {
    ProfileView {
        scope_keywords: seq![
            ("class"@, ScopeKind::Class),
            ("struct"@, ScopeKind::Struct),
            ("enum"@, ScopeKind::Enum),
            ("protocol"@, ScopeKind::Interface),
            ("extension"@, ScopeKind::Class),
        ],
        fn_keywords: seq!["func"@],
        control_flow: seq![
            "if"@,
            "else"@,
            "for"@,
            "while"@,
            "repeat"@,
            "switch"@,
            "guard"@,
            "defer"@,
            "do"@,
            "catch"@,
        ],
    }
}

/// The profile that a file extension selects; C and C++ for any extension not listed.
pub open spec fn ext_profile(ext: Seq<char>) -> ProfileView {
    if ext == "cs"@ {
        csharp_profile()
    } else if ext == "java"@ {
        java_profile()
    } else if ext == "go"@ {
        go_profile()
    } else if ext == "rs"@ {
        rust_profile()
    } else if ext == "kt"@ || ext == "kts"@ {
        kotlin_profile()
    } else if ext == "swift"@ {
        swift_profile()
    } else {
        c_profile()
    }
}

/// Python sources are those with one of Python's extensions.
pub open spec fn is_python_ext(ext: Seq<char>) -> bool {
    ext == "py"@ || ext == "pyw"@ || ext == "pyi"@
}

// ---------------------------------------------------------------------------
// Header classification
// ---------------------------------------------------------------------------

/// The words among `tokens`, in order.
pub open spec fn words_of(tokens: Seq<TokenView>) -> Seq<Seq<char>>
    decreases tokens.len(),
{
    if tokens.len() == 0 {
        seq![]
    } else {
        match tokens.last().kind {
            KindView::Word(w) => words_of(tokens.drop_last()).push(w),
            _ => words_of(tokens.drop_last()),
        }
    }
}

/// The word at index `i`; empty if there is none.
pub open spec fn word_at(words: Seq<Seq<char>>, i: int) -> Seq<char> {
    if 0 <= i < words.len() {
        words[i]
    } else {
        seq![]
    }
}

/// Index of the first entry of the keyword table for `w` at or after `i`; its length if none.
pub open spec fn keyword_index(table: Seq<(Seq<char>, ScopeKind)>, w: Seq<char>, i: int) -> int
    decreases table.len() - i,
{
    if i >= table.len() {
        table.len() as int
    } else if table[i].0 == w {
        i
    } else {
        keyword_index(table, w, i + 1)
    }
}

/// `w` introduces a named scope other than a function.
pub open spec fn is_scope_word(p: ProfileView, w: Seq<char>) -> bool {
    w == "enum"@ || keyword_index(p.scope_keywords, w, 0) < p.scope_keywords.len()
}

/// Index of the first word at or after `i` that introduces a named scope; their number if none.
pub open spec fn scope_word(p: ProfileView, words: Seq<Seq<char>>, i: int) -> int
    decreases words.len() - i,
{
    if i >= words.len() {
        words.len() as int
    } else if is_scope_word(p, words[i]) {
        i
    } else {
        scope_word(p, words, i + 1)
    }
}

/// Kind and name of the scope that the word at `i` introduces.
///
/// The name follows the keyword.  `enum` may be followed by `class` or `struct`, which the name
/// comes after.  With nothing behind the keyword, the name is the word before it.
pub open spec fn named_scope(p: ProfileView, words: Seq<Seq<char>>, i: int) -> (
    ScopeKind,
    Seq<char>,
) {
    let next = word_at(words, i + 1);
    if words[i] == "enum"@ {
        if next == "class"@ || next == "struct"@ {
            (ScopeKind::Enum, word_at(words, i + 2))
        } else {
            (ScopeKind::Enum, next)
        }
    } else {
        let kind = p.scope_keywords[keyword_index(p.scope_keywords, words[i], 0)].1;
        if next.len() == 0 {
            (kind, word_at(words, i - 1))
        } else {
            (kind, next)
        }
    }
}

/// End of the parenthesized group of which `depth` parentheses are open at `i`.
pub open spec fn group_end(tokens: Seq<TokenView>, i: int, depth: int) -> int
    decreases tokens.len() - i,
{
    if i >= tokens.len() || depth <= 0 {
        i
    } else if tokens[i].kind is OpenParen {
        group_end(tokens, i + 1, depth + 1)
    } else if tokens[i].kind is CloseParen {
        group_end(tokens, i + 1, depth - 1)
    } else {
        group_end(tokens, i + 1, depth)
    }
}

pub proof fn lemma_group_end(tokens: Seq<TokenView>, i: int, depth: int)
    requires
        0 <= i <= tokens.len(),
    ensures
        i <= group_end(tokens, i, depth) <= tokens.len(),
    decreases tokens.len() - i,
{
    if i < tokens.len() && depth > 0 {
        lemma_group_end(tokens, i + 1, depth + 1);
        lemma_group_end(tokens, i + 1, depth - 1);
        lemma_group_end(tokens, i + 1, depth);
    }
}

/// The first word at or after `i` that is not inside parentheses; empty if none.
pub open spec fn fn_name(tokens: Seq<TokenView>, i: int) -> Seq<char>
    decreases tokens.len() - i,
        when 0 <= i <= tokens.len()
{
    if i >= tokens.len() {
        seq![]
    } else {
        match tokens[i].kind {
            KindView::Word(w) => w,
            KindView::OpenParen => {
                proof {
                    lemma_group_end(tokens, i + 1, 1);
                }
                fn_name(tokens, group_end(tokens, i + 1, 1))
            },
            _ => fn_name(tokens, i + 1),
        }
    }
}

/// The token is a word of the list.
pub open spec fn is_word_in(t: TokenView, list: Seq<Seq<char>>) -> bool {
    match t.kind {
        KindView::Word(w) => list.contains(w),
        _ => false,
    }
}

/// Index of the first token at or after `i` that is a word of the list; their number if none.
pub open spec fn word_in_from(tokens: Seq<TokenView>, list: Seq<Seq<char>>, i: int) -> int
    decreases tokens.len() - i,
{
    if i >= tokens.len() {
        tokens.len() as int
    } else if is_word_in(tokens[i], list) {
        i
    } else {
        word_in_from(tokens, list, i + 1)
    }
}

/// Index of the first `(` at or after `i`; the number of tokens if none.
pub open spec fn paren_from(tokens: Seq<TokenView>, i: int) -> int
    decreases tokens.len() - i,
{
    if i >= tokens.len() {
        tokens.len() as int
    } else if tokens[i].kind is OpenParen {
        i
    } else {
        paren_from(tokens, i + 1)
    }
}

/// The last word of `words`; empty if there is none.
pub open spec fn last_word(words: Seq<Seq<char>>) -> Seq<char> {
    word_at(words, words.len() - 1)
}

/// Kind and name of the scope that the header opens.  The first of these that applies decides:
/// a word that introduces a named scope, a function keyword, a control-flow word anywhere, a word
/// in front of the first `(`.  Otherwise the scope is an anonymous block.
pub open spec fn classify(p: ProfileView, header: Seq<TokenView>) -> (ScopeKind, Seq<char>) {
    let words = words_of(header);
    let i = scope_word(p, words, 0);
    let f = word_in_from(header, p.fn_keywords, 0);
    let k = paren_from(header, 0);
    if i < words.len() {
        named_scope(p, words, i)
    } else if f < header.len() {
        (ScopeKind::Function, fn_name(header, f + 1))
    } else if word_in_from(header, p.control_flow, 0) < header.len() {
        (ScopeKind::Block, seq![])
    } else if k < header.len() && last_word(words_of(header.take(k))).len() > 0 {
        (ScopeKind::Function, last_word(words_of(header.take(k))))
    } else {
        (ScopeKind::Block, seq![])
    }
}

// ---------------------------------------------------------------------------
// The scope tree
// ---------------------------------------------------------------------------

/// A scope whose closing brace has not been seen.
pub struct FrameView {
    pub kind: ScopeKind,
    pub name: Seq<char>,
    pub body_start: int,
    pub start_line: int,
    pub children: Seq<ScopeView>,
}

/// The open scopes, outermost first, and the tokens since the last `{`, `}` or `;`.
pub struct ParseState {
    pub frames: Seq<FrameView>,
    pub header: Seq<TokenView>,
}

/// The virtual frame of the file.
pub open spec fn root_frame() -> FrameView {
    FrameView {
        kind: ScopeKind::File,
        name: seq![],
        body_start: 0,
        start_line: 1,
        children: seq![],
    }
}

/// The node of a frame that ends at `end`.
pub open spec fn closed_node(f: FrameView, end: int, end_line: int) -> ScopeView {
    ScopeView {
        kind: f.kind,
        name: f.name,
        body_start: f.body_start,
        body_end: end,
        start_line: f.start_line,
        end_line,
        children: f.children,
    }
}

/// The frame with one more child.
pub open spec fn with_child(f: FrameView, child: ScopeView) -> FrameView {
    FrameView { children: f.children.push(child), ..f }
}

/// The innermost frame becomes a child of the one around it.
pub open spec fn close_top(frames: Seq<FrameView>, end: int, end_line: int) -> Seq<FrameView> {
    let outer = frames.drop_last();
    outer.drop_last().push(with_child(outer.last(), closed_node(frames.last(), end, end_line)))
}

/// What one token does.  Comments, strings and directives are invisible; a `}` without a partner
/// closes nothing.
pub open spec fn parse_step(p: ProfileView, st: ParseState, t: TokenView) -> ParseState {
    match t.kind {
        KindView::Comment => st,
        KindView::Preprocessor => st,
        KindView::StringLiteral => st,
        KindView::Semicolon => ParseState { frames: st.frames, header: seq![] },
        KindView::OpenBrace => ParseState {
            frames: st.frames.push(
                FrameView {
                    kind: classify(p, st.header).0,
                    name: classify(p, st.header).1,
                    body_start: t.start,
                    start_line: t.line,
                    children: seq![],
                },
            ),
            header: seq![],
        },
        KindView::CloseBrace => ParseState {
            frames: if st.frames.len() > 1 {
                close_top(st.frames, t.start, t.line)
            } else {
                st.frames
            },
            header: seq![],
        },
        _ => ParseState { frames: st.frames, header: st.header.push(t) },
    }
}

/// State after all `tokens`.
pub open spec fn parse_run(p: ProfileView, tokens: Seq<TokenView>) -> ParseState
    decreases tokens.len(),
{
    if tokens.len() == 0 {
        ParseState { frames: seq![root_frame()], header: seq![] }
    } else {
        parse_step(p, parse_run(p, tokens.drop_last()), tokens.last())
    }
}

/// Scopes still open are closed at the end of the source.
pub open spec fn close_all(frames: Seq<FrameView>, len: int) -> Seq<FrameView>
    decreases frames.len(),
{
    if frames.len() <= 1 {
        frames
    } else {
        close_all(close_top(frames, len, 0), len)
    }
}

/// The scope tree of `tokens` in a source of `len` bytes.
pub open spec fn scope_tree(p: ProfileView, tokens: Seq<TokenView>, len: int) -> ScopeView {
    ScopeView {
        kind: ScopeKind::File,
        name: seq![],
        body_start: 0,
        body_end: len,
        start_line: 1,
        end_line: 0,
        children: close_all(parse_run(p, tokens).frames, len)[0].children,
    }
}

// ---------------------------------------------------------------------------
// The tree as a text
// ---------------------------------------------------------------------------

/// The name of a kind in a dump.
pub open spec fn kind_label(kind: ScopeKind) -> Seq<char> {
    match kind {
        ScopeKind::File => "File"@,
        ScopeKind::Namespace => "Namespace"@,
        ScopeKind::Class => "Class"@,
        ScopeKind::Struct => "Struct"@,
        ScopeKind::Enum => "Enum"@,
        ScopeKind::Union => "Union"@,
        ScopeKind::Interface => "Interface"@,
        ScopeKind::Function => "Function"@,
        ScopeKind::Block => "Block"@,
    }
}

/// One line for each scope, with two more spaces of indentation for each level.
pub open spec fn tree_text(node: ScopeView, indent: Seq<char>) -> Seq<char>
    decreases node, 0int,
{
    indent + kind_label(node.kind) + " ["@ + node.name + "]\n"@ + forest_text(
        node.children,
        node.children.len() as int,
        indent + "  "@,
    )
}

/// The lines of the first `n` of the scopes.
pub open spec fn forest_text(nodes: Seq<ScopeView>, n: int, indent: Seq<char>) -> Seq<char>
    decreases nodes, n,
{
    if n <= 0 || n > nodes.len() {
        ""@
    } else {
        forest_text(nodes, n - 1, indent) + tree_text(nodes[n - 1], indent)
    }
}

} // verus!
