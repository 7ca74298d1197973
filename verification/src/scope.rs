//! Pushdown-automaton scope parser.
//!
//! Turns the flat token stream of the lexer into a tree of [`ScopeNode`]s that mirrors the brace
//! nesting of the source.  Each `{…}` pair becomes a node; its kind and name come from the tokens
//! in front of the `{` (the header).
//!
//! There is no full grammar, only enough to tell namespaces, classes, enums, functions and
//! anonymous blocks apart.  A [`LanguageProfile`] holds the keywords of a language family, and
//! [`profile_for_ext`] selects one from a file extension.  Unbalanced braces are recovered from:
//! unclosed scopes end with the source, and a stray `}` is absorbed.

use crate::lexer;
use crate::lexer::{Token, TokenKind};
use crate::scope_spec;
use crate::scope_spec::{FrameView, ParseState, ProfileView, ScopeView};
use crate::text::str_eq;
use std::ops::Range;
use vstd::prelude::*;

verus! {

// ---------------------------------------------------------------------------
// Scope types
// ---------------------------------------------------------------------------

/// What a scope is.
#[derive(Debug, Clone, Copy, PartialEq, Eq, Structural)]
pub enum ScopeKind {
    /// Root of the file: virtual, not a brace pair
    File,
    Namespace,
    Class,
    Struct,
    Enum,
    Union,
    Interface,
    Function,
    /// Anonymous or control-flow block
    Block,
}

impl ScopeKind {
    /// `true` for the kinds that carry a name and appear in scope paths.
    pub fn is_named(&self) -> (r: bool)
        ensures
            r == (*self != ScopeKind::File && *self != ScopeKind::Block),
    {
        *self != ScopeKind::File && *self != ScopeKind::Block
    }

    /// The text that [`ScopeKind::as_str`] gives.
    pub open spec fn text(self) -> Seq<char> {
        match self {
            ScopeKind::File => "file"@,
            ScopeKind::Namespace => "namespace"@,
            ScopeKind::Class => "class"@,
            ScopeKind::Struct => "struct"@,
            ScopeKind::Enum => "enum"@,
            ScopeKind::Union => "union"@,
            ScopeKind::Interface => "interface"@,
            ScopeKind::Function => "fn"@,
            ScopeKind::Block => "block"@,
        }
    }

    /// Lower-case name of the kind.
    pub fn as_str(&self) -> (r: &'static str)
        ensures
            r@ == self.text(),
            *self == ScopeKind::File ==> r@ == "file"@,
            *self == ScopeKind::Namespace ==> r@ == "namespace"@,
            *self == ScopeKind::Class ==> r@ == "class"@,
            *self == ScopeKind::Struct ==> r@ == "struct"@,
            *self == ScopeKind::Enum ==> r@ == "enum"@,
            *self == ScopeKind::Union ==> r@ == "union"@,
            *self == ScopeKind::Interface ==> r@ == "interface"@,
            *self == ScopeKind::Function ==> r@ == "fn"@,
            *self == ScopeKind::Block ==> r@ == "block"@,
    {
        match self {
            ScopeKind::File => "file",
            ScopeKind::Namespace => "namespace",
            ScopeKind::Class => "class",
            ScopeKind::Struct => "struct",
            ScopeKind::Enum => "enum",
            ScopeKind::Union => "union",
            ScopeKind::Interface => "interface",
            ScopeKind::Function => "fn",
            ScopeKind::Block => "block",
        }
    }
}

/// One scope of a source file.
#[derive(Debug)]
pub struct ScopeNode {
    pub kind: ScopeKind,
    /// Empty for anonymous scopes and the file root
    pub name: String,
    /// Byte offset of the opening `{`
    pub body_start: usize,
    /// Byte offset of the closing `}`
    pub body_end: usize,
    /// 1-based line of `{`
    pub start_line: u32,
    /// 1-based line of `}`; 0 where the scope ends with the source
    pub end_line: u32,
    pub children: Vec<ScopeNode>,
}

impl View for ScopeNode {
    type V = ScopeView;

    open spec fn view(&self) -> ScopeView
        decreases self,
    {
        ScopeView {
            kind: self.kind,
            name: self.name@,
            body_start: self.body_start as int,
            body_end: self.body_end as int,
            start_line: self.start_line as int,
            end_line: self.end_line as int,
            children: Seq::new(
                self.children@.len(),
                |i: int|
                    if 0 <= i < self.children@.len() {
                        self.children@[i].view()
                    } else {
                        arbitrary()
                    },
            ),
        }
    }
}

/// The children of the view are the views of the children.
pub proof fn lemma_child_views(node: ScopeNode)
    ensures
        node@.children.len() == node.children@.len(),
        forall|i: int|
            0 <= i < node.children@.len() ==> #[trigger] node@.children[i] == node.children@[i]@,
{
    reveal_with_fuel(<ScopeNode as View>::view, 2);
}

impl Clone for ScopeNode {
    fn clone(&self) -> (r: Self)
        ensures
            r@ == self@,
        decreases self,
    {
        let mut children: Vec<ScopeNode> = Vec::new();
        let mut i: usize = 0;
        while i < self.children.len()
            invariant
                i <= self.children@.len(),
                children@.len() == i,
                forall|j: int| 0 <= j < i ==> (#[trigger] children@[j])@ == self.children@[j]@,
            decreases self.children@.len() - i,
        {
            children.push(self.children[i].clone());
            i = i + 1;
        }
        let r = ScopeNode {
            kind: self.kind,
            name: self.name.clone(),
            body_start: self.body_start,
            body_end: self.body_end,
            start_line: self.start_line,
            end_line: self.end_line,
            children,
        };
        proof {
            lemma_child_views(r);
            lemma_child_views(*self);
        }
        assert(r@.children =~= self@.children);
        r
    }
}

impl ScopeNode {
    /// Byte range of the contents between `{` and `}`, without the braces.  The file root has no
    /// `{`, so its range starts at 0.
    pub fn body_range(&self) -> (r: Range<usize>)
        requires
            self.kind != ScopeKind::File ==> self.body_start < usize::MAX,
        ensures
            (r.start as int, r.end as int) == scope_spec::body_of(self@),
            self.kind == ScopeKind::File ==> r.start == self.body_start,
            self.kind != ScopeKind::File ==> r.start == self.body_start + 1,
            r.end == self.body_end,
    {
        if self.kind == ScopeKind::File {
            Range { start: self.body_start, end: self.body_end }
        } else {
            Range { start: self.body_start + 1, end: self.body_end }
        }
    }
}

// ---------------------------------------------------------------------------
// Language profiles
// ---------------------------------------------------------------------------

/// The keywords of a language family.  All profiles share the same parser; `enum` is handled
/// universally because of C++'s `enum class` and `enum struct`.
pub struct LanguageProfile {
    /// Keywords that introduce named scopes other than functions, each with the kind of scope.
    /// The word after the keyword is the name; with nothing behind it, the word in front of it.
    pub scope_keywords: Vec<(&'static str, ScopeKind)>,
    /// Keywords that introduce a function.  Languages that go by the word in front of the first
    /// `(` have none.
    pub fn_keywords: Vec<&'static str>,
    /// Keywords that open anonymous blocks.
    pub control_flow: Vec<&'static str>,
}

/// The views of a list of words.
pub open spec fn word_views(words: Seq<&'static str>) -> Seq<Seq<char>> {
    words.map_values(|w: &'static str| w@)
}

/// The views of a keyword table.
pub open spec fn keyword_views(table: Seq<(&'static str, ScopeKind)>) -> Seq<
    (Seq<char>, ScopeKind),
> {
    table.map_values(|e: (&'static str, ScopeKind)| (e.0@, e.1))
}

impl View for LanguageProfile {
    type V = ProfileView;

    open spec fn view(&self) -> ProfileView {
        ProfileView {
            scope_keywords: keyword_views(self.scope_keywords@),
            fn_keywords: word_views(self.fn_keywords@),
            control_flow: word_views(self.control_flow@),
        }
    }
}

/// Control-flow keywords of most C-family languages.  `case` and `default` are left out: a switch
/// label has no `(`, and Java has methods declared `default`.
fn control_flow_common() -> (r: Vec<&'static str>)
    ensures
        word_views(r@) == scope_spec::common_control_flow(),
{
    let r = vec!["if", "else", "for", "while", "do", "switch", "try", "catch"];
    assert(word_views(r@) =~= scope_spec::common_control_flow());
    r
}

/// C and C++; also the fallback for unknown extensions.
pub fn profile_c() -> (r: LanguageProfile)
    ensures
        r@ == scope_spec::c_profile(),
{
    let r = LanguageProfile {
        scope_keywords: vec![
            ("namespace", ScopeKind::Namespace),
            ("class", ScopeKind::Class),
            ("struct", ScopeKind::Struct),
            ("union", ScopeKind::Union),
            ("interface", ScopeKind::Interface),
        ],
        fn_keywords: Vec::new(),
        control_flow: vec![
            "if",
            "else",
            "for",
            "while",
            "do",
            "switch",
            "try",
            "catch",
            "case",
            "default",
            "__try",
            "__except",
            "__finally",
            "__attribute__",
            "__declspec",
        ],
    };
    assert(r@.scope_keywords =~= scope_spec::c_profile().scope_keywords);
    assert(r@.fn_keywords =~= scope_spec::c_profile().fn_keywords);
    assert(r@.control_flow =~= scope_spec::c_profile().control_flow);
    r
}

/// C#: adds `record` and drops `union`.
pub fn profile_csharp() -> (r: LanguageProfile)
    ensures
        r@ == scope_spec::csharp_profile(),
{
    let r = LanguageProfile {
        scope_keywords: vec![
            ("namespace", ScopeKind::Namespace),
            ("class", ScopeKind::Class),
            ("struct", ScopeKind::Struct),
            ("interface", ScopeKind::Interface),
            ("enum", ScopeKind::Enum),
            ("record", ScopeKind::Class),
        ],
        fn_keywords: Vec::new(),
        control_flow: control_flow_common(),
    };
    assert(r@.scope_keywords =~= scope_spec::csharp_profile().scope_keywords);
    assert(r@.fn_keywords =~= scope_spec::csharp_profile().fn_keywords);
    assert(r@.control_flow =~= scope_spec::csharp_profile().control_flow);
    r
}

/// Java: no namespaces, since a package is no brace scope.
pub fn profile_java() -> (r: LanguageProfile)
    ensures
        r@ == scope_spec::java_profile(),
{
    let r = LanguageProfile {
        scope_keywords: vec![
            ("class", ScopeKind::Class),
            ("interface", ScopeKind::Interface),
            ("enum", ScopeKind::Enum),
        ],
        fn_keywords: Vec::new(),
        control_flow: control_flow_common(),
    };
    assert(r@.scope_keywords =~= scope_spec::java_profile().scope_keywords);
    assert(r@.fn_keywords =~= scope_spec::java_profile().fn_keywords);
    assert(r@.control_flow =~= scope_spec::java_profile().control_flow);
    r
}

/// Go: structs and interfaces are written `type Name keyword { }`, the name before the keyword.
pub fn profile_go() -> (r: LanguageProfile)
    ensures
        r@ == scope_spec::go_profile(),
{
    let r = LanguageProfile {
        scope_keywords: vec![
            ("struct", ScopeKind::Struct),
            ("interface", ScopeKind::Interface),
        ],
        fn_keywords: vec!["func"],
        control_flow: vec![
            "if",
            "else",
            "for",
            "switch",
            "select",
        ],
    };
    assert(r@.scope_keywords =~= scope_spec::go_profile().scope_keywords);
    assert(r@.fn_keywords =~= scope_spec::go_profile().fn_keywords);
    assert(r@.control_flow =~= scope_spec::go_profile().control_flow);
    r
}

/// Rust: `mod` is a namespace, `impl` and `trait` are class-like.
pub fn profile_rust() -> (r: LanguageProfile)
    ensures
        r@ == scope_spec::rust_profile(),
{
    let r = LanguageProfile {
        scope_keywords: vec![
            ("mod", ScopeKind::Namespace),
            ("impl", ScopeKind::Class),
            ("trait", ScopeKind::Interface),
            ("struct", ScopeKind::Struct),
            ("enum", ScopeKind::Enum),
            ("union", ScopeKind::Union),
        ],
        fn_keywords: vec!["fn"],
        control_flow: control_flow_common(),
    };
    assert(r@.scope_keywords =~= scope_spec::rust_profile().scope_keywords);
    assert(r@.fn_keywords =~= scope_spec::rust_profile().fn_keywords);
    assert(r@.control_flow =~= scope_spec::rust_profile().control_flow);
    r
}

/// Kotlin: an `object` declaration behaves like a class.
pub fn profile_kotlin() -> (r: LanguageProfile)
    ensures
        r@ == scope_spec::kotlin_profile(),
{
    let r = LanguageProfile {
        scope_keywords: vec![
            ("class", ScopeKind::Class),
            ("interface", ScopeKind::Interface),
            ("object", ScopeKind::Class),
            ("enum", ScopeKind::Enum),
        ],
        fn_keywords: vec!["fun"],
        control_flow: vec![
            "if",
            "else",
            "for",
            "while",
            "do",
            "when",
            "try",
            "catch",
        ],
    };
    assert(r@.scope_keywords =~= scope_spec::kotlin_profile().scope_keywords);
    assert(r@.fn_keywords =~= scope_spec::kotlin_profile().fn_keywords);
    assert(r@.control_flow =~= scope_spec::kotlin_profile().control_flow);
    r
}

/// Swift: an `extension` adds methods to an existing type.
pub fn profile_swift() -> (r: LanguageProfile)
    ensures
        r@ == scope_spec::swift_profile(),
{
    let r = LanguageProfile {
        scope_keywords: vec![
            ("class", ScopeKind::Class),
            ("struct", ScopeKind::Struct),
            ("enum", ScopeKind::Enum),
            ("protocol", ScopeKind::Interface),
            ("extension", ScopeKind::Class),
        ],
        fn_keywords: vec!["func"],
        control_flow: vec![
            "if",
            "else",
            "for",
            "while",
            "repeat",
            "switch",
            "guard",
            "defer",
            "do",
            "catch",
        ],
    };
    assert(r@.scope_keywords =~= scope_spec::swift_profile().scope_keywords);
    assert(r@.fn_keywords =~= scope_spec::swift_profile().fn_keywords);
    assert(r@.control_flow =~= scope_spec::swift_profile().control_flow);
    r
}

/// Select the language profile for a file extension.  Falls back to C and C++.
pub fn profile_for_ext(ext: &str) -> (r: LanguageProfile)
    ensures
        r@ == scope_spec::ext_profile(ext@),
{
    if str_eq(ext, "cs") {
        profile_csharp()
    } else if str_eq(ext, "java") {
        profile_java()
    } else if str_eq(ext, "go") {
        profile_go()
    } else if str_eq(ext, "rs") {
        profile_rust()
    } else if str_eq(ext, "kt") || str_eq(ext, "kts") {
        profile_kotlin()
    } else if str_eq(ext, "swift") {
        profile_swift()
    } else {
        profile_c()
    }
}

/// Whether files with this extension are tokenized in Python mode.
pub fn python_mode_for_ext(ext: &str) -> (r: bool)
    ensures
        r == scope_spec::is_python_ext(ext@),
{
    str_eq(ext, "py") || str_eq(ext, "pyw") || str_eq(ext, "pyi")
}

// ---------------------------------------------------------------------------
// Header classification
// ---------------------------------------------------------------------------

/// The views of borrowed words.
pub open spec fn str_views(words: Seq<&str>) -> Seq<Seq<char>> {
    words.map_values(|w: &str| w@)
}

fn is_listed(list: &Vec<&'static str>, w: &str) -> (r: bool)
    ensures
        r == word_views(list@).contains(w@),
{
    let mut i: usize = 0;
    while i < list.len()
        invariant
            i <= list@.len(),
            forall|j: int| 0 <= j < i ==> word_views(list@)[j] != w@,
        decreases list@.len() - i,
    {
        if str_eq(list[i], w) {
            assert(word_views(list@)[i as int] == w@);
            return true;
        }
        i = i + 1;
    }
    false
}

fn find_keyword(table: &Vec<(&'static str, ScopeKind)>, w: &str) -> (r: usize)
    ensures
        r == scope_spec::keyword_index(keyword_views(table@), w@, 0),
        r <= table@.len(),
{
    let mut i: usize = 0;
    while i < table.len()
        invariant
            i <= table@.len(),
            scope_spec::keyword_index(keyword_views(table@), w@, 0) == scope_spec::keyword_index(
                keyword_views(table@),
                w@,
                i as int,
            ),
        decreases table@.len() - i,
    {
        if str_eq(table[i].0, w) {
            return i;
        }
        i = i + 1;
    }
    i
}

/// The words of a header.
fn header_words<'a>(header: &'a [Token]) -> (r: Vec<&'a str>)
    ensures
        str_views(r@) == scope_spec::words_of(lexer::token_views(header@)),
{
    let mut words: Vec<&'a str> = Vec::new();
    let mut i: usize = 0;
    let ghost tokens = lexer::token_views(header@);
    while i < header.len()
        invariant
            tokens == lexer::token_views(header@),
            i <= header@.len(),
            str_views(words@) == scope_spec::words_of(tokens.take(i as int)),
        decreases header@.len() - i,
    {
        assert(tokens.take(i + 1).drop_last() =~= tokens.take(i as int));
        assert(tokens.take(i + 1).last() == header@[i as int]@);
        match &header[i].kind {
            TokenKind::Word(w) => {
                let ghost before = words@;
                words.push(w.as_str());
                assert(str_views(words@) =~= str_views(before).push(w@));
            },
            _ => {},
        }
        i = i + 1;
    }
    assert(tokens.take(i as int) =~= tokens);
    words
}

fn word_or_empty<'a>(words: &Vec<&'a str>, i: usize) -> (r: &'a str)
    ensures
        r@ == scope_spec::word_at(str_views(words@), i as int),
{
    if i < words.len() {
        words[i]
    } else {
        proof {
            reveal_strlit("");
        }
        assert(""@ =~= Seq::<char>::empty());
        ""
    }
}

/// Index of the first token that is a word of the list, or their number.
fn find_word_in(header: &[Token], list: &Vec<&'static str>) -> (r: usize)
    ensures
        r == scope_spec::word_in_from(lexer::token_views(header@), word_views(list@), 0),
        r <= header@.len(),
{
    let ghost tokens = lexer::token_views(header@);
    let mut i: usize = 0;
    while i < header.len()
        invariant
            tokens == lexer::token_views(header@),
            i <= header@.len(),
            scope_spec::word_in_from(tokens, word_views(list@), 0) == scope_spec::word_in_from(
                tokens,
                word_views(list@),
                i as int,
            ),
        decreases header@.len() - i,
    {
        assert(tokens[i as int] == header@[i as int]@);
        match &header[i].kind {
            TokenKind::Word(w) => {
                if is_listed(list, w.as_str()) {
                    return i;
                }
            },
            _ => {},
        }
        i = i + 1;
    }
    i
}

/// Scan the tokens from `from` on, which follow a function keyword, for the function name.
///
/// A parenthesized group in front of the name (a Go receiver) is skipped.
fn find_fn_name_after(tokens: &[Token], from: usize) -> (r: String)
    requires
        from <= tokens@.len(),
    ensures
        r@ == scope_spec::fn_name(lexer::token_views(tokens@), from as int),
{
    let ghost ts = lexer::token_views(tokens@);
    let mut i: usize = from;
    while i < tokens.len()
        invariant
            ts == lexer::token_views(tokens@),
            i <= tokens@.len(),
            scope_spec::fn_name(ts, from as int) == scope_spec::fn_name(ts, i as int),
        decreases tokens@.len() - i,
    {
        assert(ts[i as int] == tokens@[i as int]@);
        match &tokens[i].kind {
            TokenKind::OpenParen => {
                let ghost open = i;
                proof {
                    scope_spec::lemma_group_end(ts, i + 1, 1);
                }
                let mut depth: usize = 1;
                i = i + 1;
                while i < tokens.len() && depth > 0
                    invariant
                        ts == lexer::token_views(tokens@),
                        open < i <= tokens@.len(),
                        depth <= i - open,
                        scope_spec::group_end(ts, open + 1, 1) == scope_spec::group_end(
                            ts,
                            i as int,
                            depth as int,
                        ),
                    decreases tokens@.len() - i,
                {
                    assert(ts[i as int] == tokens@[i as int]@);
                    match &tokens[i].kind {
                        TokenKind::OpenParen => {
                            depth = depth + 1;
                        },
                        TokenKind::CloseParen => {
                            depth = depth - 1;
                        },
                        _ => {},
                    }
                    i = i + 1;
                }
            },
            TokenKind::Word(w) => {
                return w.clone();
            },
            _ => {
                i = i + 1;
            },
        }
    }
    String::new()
}

/// Decide from the header what kind of scope a `{` opens, and its name.
///
/// The first match wins:
/// 1. `enum`, where `class` or `struct` may stand before the name
/// 2. a scope keyword of the profile
/// 3. a function keyword of the profile
/// 4. a control-flow keyword anywhere: an anonymous block.  Without mandatory semicolons a header
///    holds whole statements, so the keyword need not come first.
/// 5. the last word before the first `(` names a function
/// 6. otherwise an anonymous block
pub fn classify_header(header: &[Token], profile: &LanguageProfile) -> (r: (ScopeKind, String))
    ensures
        (r.0, r.1@) == scope_spec::classify(profile@, lexer::token_views(header@)),
{
    let ghost ts = lexer::token_views(header@);
    let words = header_words(header);
    let ghost ws = str_views(words@);
    let mut i: usize = 0;
    while i < words.len()
        invariant
            ts == lexer::token_views(header@),
            ws == str_views(words@),
            ws == scope_spec::words_of(ts),
            i <= words@.len(),
            scope_spec::scope_word(profile@, ws, 0) == scope_spec::scope_word(
                profile@,
                ws,
                i as int,
            ),
        decreases words@.len() - i,
    {
        assert(ws[i as int] == words@[i as int]@);
        let next = word_or_empty(&words, i + 1);
        if str_eq(words[i], "enum") {
            if str_eq(next, "class") || str_eq(next, "struct") {
                proof {
                    reveal_strlit("class");
                    reveal_strlit("struct");
                    assert("class"@.len() == 5 && "struct"@.len() == 6);
                    assert(i + 1 < words@.len());
                }
                return (ScopeKind::Enum, word_or_empty(&words, i + 2).to_owned());
            }
            return (ScopeKind::Enum, next.to_owned());
        }
        let k = find_keyword(&profile.scope_keywords, words[i]);
        if k < profile.scope_keywords.len() {
            let kind = profile.scope_keywords[k].1;
            if next.is_empty() {
                if i > 0 {
                    return (kind, words[i - 1].to_owned());
                }
                return (kind, String::new());
            }
            return (kind, next.to_owned());
        }
        i = i + 1;
    }

    let f = find_word_in(header, &profile.fn_keywords);
    if f < header.len() {
        return (ScopeKind::Function, find_fn_name_after(header, f + 1));
    }
    if find_word_in(header, &profile.control_flow) < header.len() {
        return (ScopeKind::Block, String::new());
    }
    let mut func_name: &str = "";
    proof {
        reveal_strlit("");
        assert(""@ =~= Seq::<char>::empty());
        assert(ts.take(0) =~= seq![]);
    }
    let mut j: usize = 0;
    while j < header.len()
        invariant
            ts == lexer::token_views(header@),
            j <= header@.len(),
            scope_spec::paren_from(ts, 0) == scope_spec::paren_from(ts, j as int),
            func_name@ == scope_spec::last_word(scope_spec::words_of(ts.take(j as int))),
            scope_spec::classify(profile@, ts) == (if scope_spec::paren_from(ts, 0) < ts.len()
                && scope_spec::last_word(
                scope_spec::words_of(ts.take(scope_spec::paren_from(ts, 0))),
            ).len() > 0 {
                (
                    ScopeKind::Function,
                    scope_spec::last_word(
                        scope_spec::words_of(ts.take(scope_spec::paren_from(ts, 0))),
                    ),
                )
            } else {
                (ScopeKind::Block, seq![])
            }),
        decreases header@.len() - j,
    {
        assert(ts[j as int] == header@[j as int]@);
        assert(ts.take(j + 1).drop_last() =~= ts.take(j as int));
        assert(ts.take(j + 1).last() == ts[j as int]);
        match &header[j].kind {
            TokenKind::OpenParen => {
                if func_name.is_empty() {
                    return (ScopeKind::Block, String::new());
                }
                return (ScopeKind::Function, func_name.to_owned());
            },
            TokenKind::Word(w) => {
                func_name = w.as_str();
            },
            _ => {},
        }
        j = j + 1;
    }
    (ScopeKind::Block, String::new())
}

// ---------------------------------------------------------------------------
// Parser
// ---------------------------------------------------------------------------

/// An open scope.
struct ScopeFrame {
    kind: ScopeKind,
    name: String,
    body_start: usize,
    start_line: u32,
    children: Vec<ScopeNode>,
}

/// The views of a sequence of nodes.
pub open spec fn node_views(nodes: Seq<ScopeNode>) -> Seq<ScopeView> {
    nodes.map_values(|n: ScopeNode| n@)
}

impl View for ScopeFrame {
    type V = FrameView;

    closed spec fn view(&self) -> FrameView {
        FrameView {
            kind: self.kind,
            name: self.name@,
            body_start: self.body_start as int,
            start_line: self.start_line as int,
            children: node_views(self.children@),
        }
    }
}

spec fn frame_views(frames: Seq<ScopeFrame>) -> Seq<FrameView> {
    frames.map_values(|f: ScopeFrame| f@)
}

/// Turn the innermost frame into a child of the one around it.
fn close_innermost(stack: &mut Vec<ScopeFrame>, end: usize, end_line: u32)
    requires
        old(stack)@.len() > 1,
    ensures
        final(stack)@.len() == old(stack)@.len() - 1,
        frame_views(final(stack)@) == scope_spec::close_top(
            frame_views(old(stack)@),
            end as int,
            end_line as int,
        ),
{
    let ghost before = stack@;
    if let Some(frame) = stack.pop() {
        if let Some(mut outer) = stack.pop() {
            let ghost outer_before = outer;
            let node = ScopeNode {
                kind: frame.kind,
                name: frame.name,
                body_start: frame.body_start,
                body_end: end,
                start_line: frame.start_line,
                end_line,
                children: frame.children,
            };
            proof {
                lemma_child_views(node);
                assert(node@.children =~= frame@.children);
                assert(node@ == scope_spec::closed_node(frame@, end as int, end_line as int));
            }
            outer.children.push(node);
            assert(outer@.children =~= outer_before@.children.push(node@));
            stack.push(outer);
            assert(frame_views(stack@) =~= scope_spec::close_top(
                frame_views(before),
                end as int,
                end_line as int,
            ));
        }
    }
}

/// Parses a flat token stream into a [`ScopeNode`] tree.
pub struct ScopeParser {
    profile: LanguageProfile,
}

impl ScopeParser {
    /// The keyword tables in use.
    pub closed spec fn profile_view(&self) -> ProfileView {
        self.profile@
    }

    /// Create a parser for one language family.
    pub fn new(profile: LanguageProfile) -> (r: Self)
        ensures
            r.profile_view() == profile@,
    {
        ScopeParser { profile }
    }

    /// Parse a flat token stream into a [`ScopeNode`] tree.
    ///
    /// `source_len` is the byte length of the source; scopes that are still open after the last
    /// token end there.
    pub fn parse(self, tokens: &[Token], source_len: usize) -> (r: ScopeNode)
        ensures
            r@ == scope_spec::scope_tree(
                self.profile_view(),
                lexer::token_views(tokens@),
                source_len as int,
            ),
    {
        let ghost p = self.profile@;
        let ghost ts = lexer::token_views(tokens@);
        let mut stack: Vec<ScopeFrame> = Vec::new();
        let mut header: Vec<Token> = Vec::new();
        stack.push(
            ScopeFrame {
                kind: ScopeKind::File,
                name: String::new(),
                body_start: 0,
                start_line: 1,
                children: Vec::new(),
            },
        );
        proof {
            assert(node_views(stack@[0].children@) =~= seq![]);
            assert(stack@[0].name@ =~= seq![]);
            assert(frame_views(stack@) =~= seq![scope_spec::root_frame()]);
            assert(lexer::token_views(header@) =~= seq![]);
            assert(ts.take(0) =~= seq![]);
        }
        let mut i: usize = 0;
        while i < tokens.len()
            invariant
                p == self.profile@,
                ts == lexer::token_views(tokens@),
                i <= tokens@.len(),
                stack@.len() >= 1,
                scope_spec::parse_run(p, ts.take(i as int)) == (ParseState {
                    frames: frame_views(stack@),
                    header: lexer::token_views(header@),
                }),
            decreases tokens@.len() - i,
        {
            let token = &tokens[i];
            let ghost st = scope_spec::parse_run(p, ts.take(i as int));
            let ghost frames = stack@;
            let ghost head = header@;
            proof {
                assert(ts.take(i + 1).drop_last() =~= ts.take(i as int));
                assert(ts.take(i + 1).last() == token@);
                assert(lexer::token_views(Seq::<Token>::empty()) =~= seq![]);
            }
            match &token.kind {
                TokenKind::Comment | TokenKind::Preprocessor | TokenKind::StringLiteral => {},
                TokenKind::Semicolon => {
                    header.clear();
                },
                TokenKind::OpenBrace => {
                    let (kind, name) = classify_header(header.as_slice(), &self.profile);
                    let frame = ScopeFrame {
                        kind,
                        name,
                        body_start: token.start,
                        start_line: token.line,
                        children: Vec::new(),
                    };
                    assert(node_views(frame.children@) =~= seq![]);
                    stack.push(frame);
                    assert(frame_views(stack@) =~= frame_views(frames).push(frame@));
                    header.clear();
                },
                TokenKind::CloseBrace => {
                    if stack.len() > 1 {
                        close_innermost(&mut stack, token.start, token.line);
                    }
                    header.clear();
                },
                _ => {
                    header.push(token.clone());
                    assert(lexer::token_views(header@) =~= lexer::token_views(head).push(token@));
                },
            }
            i = i + 1;
        }
        assert(ts.take(i as int) =~= ts);
        let ghost end_frames = frame_views(stack@);
        while stack.len() > 1
            invariant
                stack@.len() >= 1,
                scope_spec::close_all(end_frames, source_len as int) == scope_spec::close_all(
                    frame_views(stack@),
                    source_len as int,
                ),
            decreases stack@.len(),
        {
            close_innermost(&mut stack, source_len, 0);
        }
        let ghost root = stack@[0];
        let children = match stack.pop() {
            Some(frame) => frame.children,
            None => Vec::new(),
        };
        let r = ScopeNode {
            kind: ScopeKind::File,
            name: String::new(),
            body_start: 0,
            body_end: source_len,
            start_line: 1,
            end_line: 0,
            children,
        };
        proof {
            lemma_child_views(r);
            assert(r.name@ =~= seq![]);
            assert(r@.children =~= root@.children);
        }
        r
    }
}

// ---------------------------------------------------------------------------
// Dump
// ---------------------------------------------------------------------------

fn kind_label(kind: ScopeKind) -> (r: &'static str)
    ensures
        r@ == scope_spec::kind_label(kind),
{
    match kind {
        ScopeKind::File => "File",
        ScopeKind::Namespace => "Namespace",
        ScopeKind::Class => "Class",
        ScopeKind::Struct => "Struct",
        ScopeKind::Enum => "Enum",
        ScopeKind::Union => "Union",
        ScopeKind::Interface => "Interface",
        ScopeKind::Function => "Function",
        ScopeKind::Block => "Block",
    }
}

/// The scope tree as a text, one line per scope, each level indented by two more spaces.  It shows
/// rule authors how a file was parsed: the bracketed names, joined by `::`, are the scope path.
pub fn scope_tree_text(node: &ScopeNode, indent: &str) -> (r: String)
    ensures
        r@ == scope_spec::tree_text(node@, indent@),
    decreases node,
{
    let mut inner = indent.to_owned();
    inner.push_str("  ");
    proof {
        lemma_child_views(*node);
    }
    let mut children = "".to_owned();
    let mut i: usize = 0;
    while i < node.children.len()
        invariant
            i <= node.children@.len(),
            node@.children.len() == node.children@.len(),
            forall|k: int|
                0 <= k < node.children@.len() ==> #[trigger] node@.children[k]
                    == node.children@[k]@,
            inner@ == indent@ + "  "@,
            children@ == scope_spec::forest_text(node@.children, i as int, inner@),
        decreases node.children@.len() - i,
    {
        assert(node@.children[i as int] == node.children@[i as int]@);
        children.push_str(scope_tree_text(&node.children[i], inner.as_str()).as_str());
        i = i + 1;
    }
    let mut out = indent.to_owned();
    out.push_str(kind_label(node.kind));
    out.push_str(" [");
    out.push_str(node.name.as_str());
    out.push_str("]\n");
    out.push_str(children.as_str());
    out
}

} // verus!
