//! Scope trees and language profiles.

use yarecs::lexer::{Lexer, TokenKind};
use yarecs::scope::{
    classify_header, profile_c, profile_for_ext, profile_go, profile_kotlin, profile_swift,
    python_mode_for_ext, scope_tree_text, ScopeKind, ScopeNode, ScopeParser,
};

fn tree(source: &str, ext: &str) -> ScopeNode {
    let lex = Lexer::new(source, false).tokenize();
    ScopeParser::new(profile_for_ext(ext)).parse(&lex.tokens, source.len())
}

fn count(node: &ScopeNode) -> usize {
    1 + node.children.iter().map(count).sum::<usize>()
}

fn assert_nested(node: &ScopeNode) {
    let mut end = 0;
    for (i, child) in node.children.iter().enumerate() {
        assert!(child.body_start < child.body_end);
        assert!(node.kind == ScopeKind::File || node.body_start < child.body_start);
        assert!(child.body_end <= node.body_end);
        assert!(i == 0 || end < child.body_start);
        end = child.body_end;
        assert_nested(child);
    }
}

fn header(source: &str, profile: &yarecs::scope::LanguageProfile) -> (ScopeKind, String) {
    let lex = Lexer::new(source, false).tokenize();
    classify_header(&lex.tokens, profile)
}

#[test]
fn kinds_have_lower_case_names() {
    assert_eq!(ScopeKind::File.as_str(), "file");
    assert_eq!(ScopeKind::Namespace.as_str(), "namespace");
    assert_eq!(ScopeKind::Class.as_str(), "class");
    assert_eq!(ScopeKind::Struct.as_str(), "struct");
    assert_eq!(ScopeKind::Enum.as_str(), "enum");
    assert_eq!(ScopeKind::Union.as_str(), "union");
    assert_eq!(ScopeKind::Interface.as_str(), "interface");
    assert_eq!(ScopeKind::Function.as_str(), "fn");
    assert_eq!(ScopeKind::Block.as_str(), "block");
}

#[test]
fn file_and_block_are_not_named() {
    assert!(!ScopeKind::File.is_named());
    assert!(!ScopeKind::Block.is_named());
    assert!(ScopeKind::Function.is_named());
    assert!(ScopeKind::Enum.is_named());
}

#[test]
fn body_range_leaves_out_the_braces() {
    let root = tree("class A { x }", "cpp");
    assert_eq!(root.body_range(), 0..13);
    assert_eq!(root.children[0].body_range(), 9..12);
}

#[test]
fn headers_of_c_are_classified() {
    let p = profile_c();
    assert_eq!(header("namespace A", &p), (ScopeKind::Namespace, "A".to_string()));
    assert_eq!(header("union U", &p), (ScopeKind::Union, "U".to_string()));
    assert_eq!(header("enum class E : int", &p), (ScopeKind::Enum, "E".to_string()));
    assert_eq!(header("enum E", &p), (ScopeKind::Enum, "E".to_string()));
    assert_eq!(header("enum", &p), (ScopeKind::Enum, String::new()));
    assert_eq!(header("static int f(int a)", &p), (ScopeKind::Function, "f".to_string()));
    assert_eq!(header("if (f(x))", &p), (ScopeKind::Block, String::new()));
    assert_eq!(header("(x)", &p), (ScopeKind::Block, String::new()));
    assert_eq!(header("int a = ", &p), (ScopeKind::Block, String::new()));
    assert_eq!(header("", &p), (ScopeKind::Block, String::new()));
}

#[test]
fn headers_with_function_keywords_are_classified() {
    let go = profile_go();
    assert_eq!(header("func (w *W) F(x int)", &go), (ScopeKind::Function, "F".to_string()));
    assert_eq!(header("type T struct", &go), (ScopeKind::Struct, "T".to_string()));
    assert_eq!(header("struct", &go), (ScopeKind::Struct, String::new()));
    let kotlin = profile_kotlin();
    assert_eq!(
        header("val a = g(1) for (b in c)", &kotlin),
        (ScopeKind::Block, String::new())
    );
    let swift = profile_swift();
    assert_eq!(header("protocol P", &swift), (ScopeKind::Interface, "P".to_string()));
}

#[test]
fn unknown_extension_is_c() {
    assert_eq!(profile_for_ext("zig").control_flow, profile_c().control_flow);
    assert_eq!(profile_for_ext("kts").fn_keywords, vec!["fun"]);
    assert!(profile_for_ext("java").fn_keywords.is_empty());
}

#[test]
fn python_mode_follows_the_extension() {
    assert!(python_mode_for_ext("py"));
    assert!(python_mode_for_ext("pyw"));
    assert!(python_mode_for_ext("pyi"));
    assert!(!python_mode_for_ext("cpp"));
}

#[test]
fn scopes_are_nested_and_ordered() {
    let root = tree("namespace N { class A { void f() { if (x) { } } void g() { } }; }\nint h() { }", "cpp");
    assert_nested(&root);
    assert_eq!(root.children.len(), 2);
    assert_eq!(root.children[0].children[0].children.len(), 2);
}

#[test]
fn every_open_brace_is_one_scope() {
    let source = "a { b { } c { { } } } } d {";
    let root = tree(source, "cpp");
    let lex = Lexer::new(source, false).tokenize();
    let opens = lex.tokens.iter().filter(|t| t.kind == TokenKind::OpenBrace).count();
    assert_eq!(count(&root), 1 + opens);
}

#[test]
fn unclosed_scope_ends_with_the_source() {
    let source = "class A {\n void f() {\n";
    let root = tree(source, "cpp");
    let a = &root.children[0];
    assert_eq!((a.body_end, a.end_line), (source.len(), 0));
    assert_eq!((a.children[0].body_end, a.children[0].end_line), (source.len(), 0));
}

#[test]
fn stray_brace_is_absorbed() {
    let root = tree("} class A { } } class B { }", "cpp");
    assert_eq!(root.children.len(), 2);
    assert_eq!(root.children[0].name, "A");
    assert_eq!(root.children[1].name, "B");
}

#[test]
fn lines_of_braces_are_kept() {
    let root = tree("class A\n{\n}\n", "cpp");
    assert_eq!((root.children[0].start_line, root.children[0].end_line), (2, 3));
}

#[test]
fn comments_strings_and_directives_are_invisible() {
    let plain = tree("class A { void f() { } };", "cpp");
    let noisy = tree("class /* { */ A { void f() { \"{\"; } };\n#define X {\n", "cpp");
    assert_eq!(count(&plain), count(&noisy));
    assert_eq!(noisy.children[0].children[0].name, "f");
}

#[test]
fn clone_of_a_tree_is_the_same_tree() {
    let root = tree("class A { void f() { } };", "cpp");
    assert_eq!(scope_tree_text(&root.clone(), ""), scope_tree_text(&root, ""));
}

#[test]
fn tree_text_shows_kinds_and_names() {
    let root = tree(
        "namespace MyApp { class Widget { void render() { } void safe_render() { } }; class Engine { void run() { } }; }",
        "cpp",
    );
    assert_eq!(
        scope_tree_text(&root, ""),
        "File []\n  Namespace [MyApp]\n    Class [Widget]\n      Function [render]\n      Function [safe_render]\n    Class [Engine]\n      Function [run]\n"
    );
}

#[test]
fn scopes_start_and_end_at_braces() {
    fn check(node: &ScopeNode, source: &[u8]) {
        for child in &node.children {
            assert_eq!(source[child.body_start], b'{');
            assert!(
                (child.end_line == 0 && child.body_end == source.len())
                    || source[child.body_end] == b'}'
            );
            check(child, source);
        }
    }
    let source = "a { b { } } c { d {";
    check(&tree(source, "cpp"), source.as_bytes());
}
