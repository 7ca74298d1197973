//! Tokens, comment ranges and string ranges.

use yarecs::lexer::{LexOutput, Lexer, TokenKind};

fn lex(source: &str) -> LexOutput {
    Lexer::new(source, false).tokenize()
}

fn lex_python(source: &str) -> LexOutput {
    Lexer::new(source, true).tokenize()
}

fn kinds(out: &LexOutput) -> Vec<TokenKind> {
    out.tokens.iter().map(|t| t.kind.clone()).collect()
}

fn word(w: &str) -> TokenKind {
    TokenKind::Word(w.to_string())
}

#[test]
fn empty_source_has_no_tokens() {
    let out = lex("");
    assert!(out.tokens.is_empty());
    assert!(out.comment_ranges.is_empty());
    assert!(out.string_ranges.is_empty());
}

#[test]
fn structural_tokens_are_told_apart() {
    let out = lex("a { b ( ) } ; : +");
    assert_eq!(
        kinds(&out),
        vec![
            word("a"),
            TokenKind::OpenBrace,
            word("b"),
            TokenKind::OpenParen,
            TokenKind::CloseParen,
            TokenKind::CloseBrace,
            TokenKind::Semicolon,
            TokenKind::Colon,
            TokenKind::Other,
        ]
    );
}

#[test]
fn positions_and_lines_of_tokens() {
    let out = lex("ab\n cd");
    assert_eq!(out.tokens.len(), 2);
    assert_eq!((out.tokens[0].start, out.tokens[0].end, out.tokens[0].line), (0, 2, 1));
    assert_eq!((out.tokens[1].start, out.tokens[1].end, out.tokens[1].line), (4, 6, 2));
}

#[test]
fn comments_and_strings_have_their_ranges() {
    let source = "x = \"a // b\"; // \"c\"\n/* d */ 'e'";
    let out = lex(source);
    let comments: Vec<&str> = out.comment_ranges.iter().map(|r| &source[r.clone()]).collect();
    let strings: Vec<&str> = out.string_ranges.iter().map(|r| &source[r.clone()]).collect();
    assert_eq!(comments.len(), 2);
    assert!(comments[0].starts_with("// \"c\""));
    assert_eq!(comments[1], "/* d */");
    assert_eq!(strings, vec!["\"a // b\"", "'e'"]);
}

#[test]
fn escaped_quotes_stay_inside_a_string() {
    let source = "\"a\\\"b\" c";
    let out = lex(source);
    assert_eq!(out.string_ranges.len(), 1);
    assert_eq!(&source[out.string_ranges[0].clone()], "\"a\\\"b\"");
    assert_eq!(kinds(&out), vec![TokenKind::StringLiteral, word("c")]);
}

#[test]
fn unterminated_block_comment_reaches_the_end() {
    let source = "a /* b";
    let out = lex(source);
    assert_eq!(out.comment_ranges, vec![2..6]);
}

#[test]
fn raw_string_ends_at_its_own_delimiter() {
    let source = "R\"x(a)\" b)x\" c";
    let out = lex(source);
    assert_eq!(out.string_ranges.len(), 1);
    assert_eq!(&source[out.string_ranges[0].clone()], "R\"x(a)\" b)x\"");
    assert_eq!(kinds(&out), vec![TokenKind::StringLiteral, word("c")]);
}

#[test]
fn directive_takes_its_continued_lines() {
    let source = "#define A { \\\n }\nb";
    let out = lex(source);
    assert_eq!(kinds(&out), vec![TokenKind::Preprocessor, word("b")]);
}

#[test]
fn python_indentation_is_balanced() {
    let out = lex_python("def f():\n    if x:\n        y\nz\n");
    let indents = out.tokens.iter().filter(|t| t.kind == TokenKind::Indent).count();
    let dedents = out.tokens.iter().filter(|t| t.kind == TokenKind::Dedent).count();
    assert_eq!(indents, 2);
    assert_eq!(dedents, 2);
}

#[test]
fn python_levels_are_closed_at_the_end() {
    let out = lex_python("if x:\n  if y:\n    z");
    let indents = out.tokens.iter().filter(|t| t.kind == TokenKind::Indent).count();
    let dedents = out.tokens.iter().filter(|t| t.kind == TokenKind::Dedent).count();
    assert_eq!((indents, dedents), (2, 2));
}

#[test]
fn python_brackets_suppress_indentation() {
    let out = lex_python("f(\n    1,\n        2)\n");
    assert!(out.tokens.iter().all(|t| t.kind != TokenKind::Indent));
}

#[test]
fn tokens_follow_each_other_and_cover_the_text() {
    let source = "class A { /* c */ void f(int x) { return \"s\"; } };\n";
    let out = lex(source);
    let mut covered = vec![false; source.len()];
    let mut end = 0;
    for t in &out.tokens {
        assert!(t.start >= end && t.end > t.start);
        end = t.end;
        for c in covered[t.start..t.end].iter_mut() {
            *c = true;
        }
    }
    for (i, b) in source.bytes().enumerate() {
        assert!(covered[i] || b.is_ascii_whitespace(), "byte {i} is in no token");
    }
}

#[test]
fn line_of_a_token_counts_the_newlines_before_it() {
    let source = "a\n\nb /* \n */ c";
    let out = lex(source);
    for t in &out.tokens {
        let newlines = source[..t.start].bytes().filter(|&b| b == b'\n').count();
        assert_eq!(t.line as usize, newlines + 1);
    }
}

#[test]
fn comment_and_string_ranges_are_disjoint() {
    let out = lex("'a' /* 'b' */ \"/* c */\" // 'd'\n'e'");
    for c in &out.comment_ranges {
        for s in &out.string_ranges {
            assert!(c.end <= s.start || s.end <= c.start);
        }
    }
    assert!(out.comment_ranges.windows(2).all(|w| w[0].end <= w[1].start));
    assert!(out.string_ranges.windows(2).all(|w| w[0].end <= w[1].start));
}

#[test]
fn python_comment_leaves_the_end_of_its_line() {
    let out = lex_python("x # c\ny\n");
    assert_eq!(
        kinds(&out),
        vec![
            word("x"),
            TokenKind::Preprocessor,
            TokenKind::Semicolon,
            word("y"),
            TokenKind::Semicolon,
        ]
    );
    assert_eq!((out.tokens[1].start, out.tokens[1].end), (2, 5));
    assert_eq!((out.tokens[2].start, out.tokens[2].end, out.tokens[2].line), (5, 6, 1));
}

#[test]
fn python_indentation_is_seen_behind_comments() {
    let out = lex_python("if x: # c\n    y # d\n# only\nz\n");
    assert_eq!(
        kinds(&out),
        vec![
            word("if"),
            word("x"),
            TokenKind::Colon,
            TokenKind::Preprocessor,
            TokenKind::Semicolon,
            TokenKind::Indent,
            word("y"),
            TokenKind::Preprocessor,
            TokenKind::Semicolon,
            TokenKind::Preprocessor,
            TokenKind::Semicolon,
            TokenKind::Dedent,
            word("z"),
            TokenKind::Semicolon,
        ]
    );
}

#[test]
fn python_slashes_leave_the_end_of_their_line() {
    let out = lex_python("x // y\nz\n");
    assert_eq!(
        kinds(&out),
        vec![
            word("x"),
            TokenKind::Comment,
            TokenKind::Semicolon,
            word("z"),
            TokenKind::Semicolon,
        ]
    );
    assert_eq!(out.comment_ranges, vec![2..6]);
}

#[test]
fn python_comment_in_brackets_ends_no_logical_line() {
    let out = lex_python("f(1, # c\n  2)\n");
    let ends = out.tokens.iter().filter(|t| t.kind == TokenKind::Semicolon).count();
    assert_eq!(ends, 1);
    assert!(out.tokens.iter().all(|t| t.kind != TokenKind::Indent));
}

#[test]
fn line_comment_and_directive_take_their_newline_outside_python() {
    let out = lex("// a\n#b\nc");
    assert_eq!(out.comment_ranges, vec![0..5]);
    assert_eq!((out.tokens[1].start, out.tokens[1].end), (5, 8));
}

#[test]
fn python_comment_is_continued_by_a_backslash() {
    let out = lex_python("#a\\\nb\n");
    assert_eq!(kinds(&out), vec![TokenKind::Preprocessor, TokenKind::Semicolon]);
    assert_eq!((out.tokens[0].start, out.tokens[0].end), (0, 5));
    assert_eq!((out.tokens[1].start, out.tokens[1].end), (5, 6));
}

#[test]
fn python_comment_in_brackets_takes_its_newline() {
    let out = lex_python("(#a\\\nb\n//c\n)");
    assert_eq!(
        kinds(&out),
        vec![
            TokenKind::OpenParen,
            TokenKind::Preprocessor,
            TokenKind::Comment,
            TokenKind::CloseParen,
        ]
    );
    assert_eq!((out.tokens[1].start, out.tokens[1].end), (1, 7));
    assert_eq!((out.tokens[2].start, out.tokens[2].end), (7, 11));
}

#[test]
fn directive_is_continued_over_a_carriage_return() {
    let out = lex("#a\\\r\nb\nc");
    assert_eq!((out.tokens[0].start, out.tokens[0].end), (0, 7));
    let out = lex_python("#a\\\r\nb\nc");
    assert_eq!((out.tokens[0].start, out.tokens[0].end), (0, 6));
}
