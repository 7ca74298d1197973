//! Text operations.

use yarecs::text::{
    comes_before, is_whitespace, join, push_decimal, replace_char, slice_str, split_on, str_eq,
    trim,
};

fn strings(parts: &[&str]) -> Vec<String> {
    parts.iter().map(|p| p.to_string()).collect()
}

#[test]
fn equality_of_texts() {
    assert!(str_eq("aé", "aé"));
    assert!(!str_eq("a", "b"));
    assert!(!str_eq("a", "ab"));
}

#[test]
fn split_takes_separators_from_the_left() {
    assert_eq!(split_on("a::b", "::"), strings(&["a", "b"]));
    assert_eq!(split_on("a:::b", "::"), strings(&["a", ":b"]));
    assert_eq!(split_on("", "::"), strings(&[""]));
    assert_eq!(split_on("::", "::"), strings(&["", ""]));
    assert_eq!(split_on("a,b,,c", ","), strings(&["a", "b", "", "c"]));
}

#[test]
fn joined_pieces_restore_the_text() {
    for s in ["", "a", "a::b", ":::", "a:b::c::"] {
        assert_eq!(join(&split_on(s, "::"), "::"), s);
    }
}

#[test]
fn pieces_of_a_joined_text_are_its_parts() {
    let parts = strings(&["ns", "Class", "f"]);
    assert_eq!(split_on(&join(&parts, "::"), "::"), parts);
    assert_eq!(join(&[], "::"), "");
}

#[test]
fn every_occurrence_is_replaced() {
    assert_eq!(replace_char("a\"b\"", '"', "\"\""), "a\"\"b\"\"");
    assert_eq!(replace_char("abc", 'x', "y"), "abc");
}

#[test]
fn white_space_is_trimmed() {
    assert_eq!(trim(" \t\u{a0}a b\u{3000}\n"), "a b");
    assert_eq!(trim(" \n"), "");
    for code in 0u32..0x11_0000 {
        if let Some(c) = char::from_u32(code) {
            assert_eq!(is_whitespace(c), c.is_whitespace(), "U+{code:04X}");
        }
    }
}

#[test]
fn numbers_are_written_in_decimal() {
    for n in [0usize, 7, 10, 99, 100, 12345, usize::MAX] {
        let mut s = "n=".to_string();
        push_decimal(&mut s, n);
        assert_eq!(s, format!("n={n}"));
    }
}

#[test]
fn order_is_that_of_the_standard_library() {
    let words = ["", "a", "ab", "b", "B", "é", "z\u{10000}", "z\u{ffff}"];
    for a in words {
        for b in words {
            assert_eq!(comes_before(a, b), a < b, "{a} {b}");
        }
    }
}

#[test]
fn slices_between_characters() {
    assert_eq!(slice_str("aéb", 1, 3), "é");
    assert_eq!(slice_str("aéb", 4, 4), "");
}
