//! Byte ranges, lines, statements and snippets.

use yarecs::engine::{classify_position, MatchContext};
use yarecs::lines::{
    advance_n_lines, byte_to_line_col, extract_snippet, retreat_n_lines, statement_bounds,
};
use yarecs::ranges::{code_gaps, in_any_range, ranges_overlapping};

#[test]
fn positions_in_ranges() {
    let ranges = vec![2..5, 5..7, 10..11];
    let inside: Vec<usize> = (0..13).filter(|&p| in_any_range(p, &ranges)).collect();
    assert_eq!(inside, vec![2, 3, 4, 5, 6, 10]);
    assert!(!in_any_range(0, &[]));
}

#[test]
fn overlapping_ranges_are_clipped() {
    let ranges = vec![0..2, 4..8, 10..12, 20..22];
    assert_eq!(ranges_overlapping(&ranges, &(5..11)), vec![5..8, 10..11]);
    assert_eq!(ranges_overlapping(&ranges, &(2..4)), Vec::<std::ops::Range<usize>>::new());
    assert_eq!(ranges_overlapping(&ranges, &(0..30)), ranges);
}

#[test]
fn code_gaps_are_the_complement() {
    let comments = vec![2..4, 10..12];
    let strings = vec![4..6, 20..25];
    let gaps = code_gaps(&(1..22), &comments, &strings);
    assert_eq!(gaps, vec![1..2, 6..10, 12..20]);
    for p in 1..22 {
        let code = !in_any_range(p, &comments) && !in_any_range(p, &strings);
        assert_eq!(in_any_range(p, &gaps), code);
    }
}

#[test]
fn code_gaps_of_a_commented_body_are_empty() {
    assert!(code_gaps(&(3..5), &[2..8], &[]).is_empty());
    assert_eq!(code_gaps(&(3..5), &[], &[]), vec![3..5]);
}

#[test]
fn position_is_classified() {
    let comments = vec![0..3];
    let strings = vec![5..8];
    assert_eq!(classify_position(1, &comments, &strings), MatchContext::Comment);
    assert_eq!(classify_position(5, &comments, &strings), MatchContext::StringLiteral);
    assert_eq!(classify_position(8, &comments, &strings), MatchContext::Code);
}

#[test]
fn line_and_column_are_one_based() {
    let source = "ab\ncdé\nf";
    assert_eq!(byte_to_line_col(source, 0), (1, 1));
    assert_eq!(byte_to_line_col(source, 2), (1, 3));
    assert_eq!(byte_to_line_col(source, 3), (2, 1));
    assert_eq!(byte_to_line_col(source, 7), (2, 5));
    assert_eq!(byte_to_line_col(source, source.len()), (3, 2));
    assert_eq!(byte_to_line_col(source, source.len() + 3), (3, 5));
}

#[test]
fn lines_are_advanced_and_retreated() {
    let s = b"a\nb\nc\nd\n";
    assert_eq!(advance_n_lines(s, 0, 1, 8), 2);
    assert_eq!(advance_n_lines(s, 0, 2, 8), 4);
    assert_eq!(advance_n_lines(s, 0, 9, 8), 8);
    assert_eq!(advance_n_lines(s, 0, 0, 8), 8);
    assert_eq!(advance_n_lines(s, 0, 3, 5), 5);
    assert_eq!(retreat_n_lines(s, 5, 0, 0), 4);
    assert_eq!(retreat_n_lines(s, 5, 1, 0), 2);
    assert_eq!(retreat_n_lines(s, 5, 9, 1), 1);
    assert_eq!(retreat_n_lines(s, 1, 2, 3), 3);
}

#[test]
fn statement_skips_boundaries_in_comments_and_strings() {
    let s = b"a; b /* ; */ T \"}\" c; d";
    let bounds = statement_bounds(s, 13, 14, &(0..s.len()), &[5..12], &[15..18]);
    assert_eq!(bounds, (2, 21));
    assert_eq!(statement_bounds(s, 13, 14, &(0..s.len()), &[], &[]), (9, 17));
}

#[test]
fn statement_stays_in_the_body() {
    let s = b"abc";
    assert_eq!(statement_bounds(s, 1, 2, &(0..3), &[], &[]), (0, 3));
}

#[test]
fn short_snippet_is_the_trimmed_line() {
    let source = "x\n\t  a b\u{a0} \ny";
    assert_eq!(extract_snippet(source, 5, 1), "a b");
}

#[test]
fn snippet_spans_all_lines_of_the_match() {
    let source = "a\n b\n c \nd";
    assert_eq!(extract_snippet(source, 3, 4), "b\n c");
}

#[test]
fn long_snippet_is_cut_around_the_match() {
    let source = format!("{}NEEDLE{}", "a".repeat(3000), "b".repeat(3000));
    let expected = format!("\u{2026}{}NEEDLE{}\u{2026}", "a".repeat(120), "b".repeat(120));
    assert_eq!(extract_snippet(&source, 3000, 6), expected);
}

#[test]
fn long_snippet_is_cut_between_characters() {
    let source = format!("{}N{}", "\u{20ac}".repeat(1000), "\u{20ac}".repeat(1000));
    let snippet = extract_snippet(&source, 3000, 1);
    let expected =
        format!("\u{2026}{}N{}\u{2026}", "\u{20ac}".repeat(40), "\u{20ac}".repeat(40));
    assert_eq!(snippet, expected);
    let odd = format!("x{source}");
    let snippet = extract_snippet(&odd, 3001, 1);
    assert_eq!(snippet, expected);
}

#[test]
fn long_snippet_at_the_start_has_one_ellipsis() {
    let source = format!("  N{}", "b".repeat(3000));
    let expected = format!("N{}\u{2026}", "b".repeat(120));
    assert_eq!(extract_snippet(&source, 2, 1), expected);
}

#[test]
fn snippet_is_bounded() {
    let source = format!("{}\u{1f389}N\u{1f389}{}", "\u{1f389}".repeat(700), "b".repeat(3000));
    let at = 701 * 4;
    let snippet = extract_snippet(&source, at, 1);
    assert!(snippet.len() <= 1 + 252);
    assert!(snippet.contains('N'));
}

#[test]
fn line_and_column_tell_the_position() {
    let source = "a\n\nbc\n d";
    let mut seen = Vec::new();
    for p in 0..=source.len() {
        let place = byte_to_line_col(source, p);
        assert!(!seen.contains(&place));
        seen.push(place);
    }
}

#[test]
fn line_windows_hold_at_most_n_newlines() {
    let s = b"a\n\nb\nc\n\n\nd";
    let count = |a: usize, b: usize| s[a..b].iter().filter(|&&c| c == b'\n').count();
    for p in 0..=s.len() {
        for n in 1..5 {
            let after = advance_n_lines(s, p, n, s.len());
            assert!(count(p, after) <= n && (after == s.len() || count(p, after) == n));
            let before = retreat_n_lines(s, p, n, 0);
            assert!(count(before, p) <= n && (before == 0 || count(before, p) == n));
        }
    }
}
