use vostok_pdb_parser::text::{
    ends_with, push_numeral, push_padded, replace_char, same_text, split_lines, str_less,
    strip_prefix, trim,
};

#[test]
fn lines_split() {
    assert_eq!(split_lines("a\r\nb\n\nc"), vec!["a", "b", "", "c"]);
}

#[test]
fn lines_end_like_those_of_std() {
    for s in ["", "\n", "a", "a\n", "a\r", "a\r\n", "\r\n\r\n", "a\n\n", "a\rb\nc\r", "é\r\r\nü"] {
        let expected: Vec<&str> = s.lines().collect();
        assert_eq!(split_lines(s), expected);
    }
}

#[test]
fn white_space_is_trimmed() {
    assert_eq!(trim(" \t x y \r\n"), "x y");
    assert_eq!(trim("   "), "");
    assert_eq!(trim(""), "");
    assert_eq!(trim("\u{3000}x\u{a0}"), "x");
    assert_eq!(trim("\u{200b}x"), "\u{200b}x");
}

#[test]
fn white_space_is_a_fixed_set() {
    let mut found: Vec<u32> = Vec::new();
    for c in '\u{0}'..='\u{10ffff}' {
        if c.is_whitespace() {
            found.push(c as u32);
        }
    }
    let mut expected: Vec<u32> = vec![9, 10, 11, 12, 13, 32, 0x85, 0xa0, 0x1680];
    expected.extend(0x2000..=0x200au32);
    expected.extend([0x2028, 0x2029, 0x202f, 0x205f, 0x3000]);
    assert_eq!(found, expected);
}

#[test]
fn numerals_have_no_leading_zeros() {
    let mut s = String::from("x");
    push_numeral(&mut s, 0, 16);
    push_numeral(&mut s, 255, 16);
    push_numeral(&mut s, 1205, 10);
    push_numeral(&mut s, u64::MAX, 16);
    assert_eq!(s, "x0ff1205ffffffffffffffff");
}

#[test]
fn padding_counts_characters() {
    let mut s = String::new();
    push_padded(&mut s, "é", 3);
    push_padded(&mut s, "abcd", 3);
    assert_eq!(s, format!("{:<3}{:<3}", "é", "abcd"));
    assert_eq!(s, "é  abcd");
}

#[test]
fn characters_are_replaced() {
    assert_eq!(replace_char("a\\b\\c", '\\', '/'), "a/b/c");
    assert_eq!(replace_char("abc", '\\', '/'), "abc");
}

#[test]
fn prefixes_and_suffixes() {
    assert_eq!(strip_prefix("c:\\s\\a.cpp", "c:\\s\\"), Some("a.cpp".to_string()));
    assert_eq!(strip_prefix("c:\\s", "c:\\s\\"), None);
    assert_eq!(strip_prefix("abc", ""), Some("abc".to_string()));
    assert_eq!(strip_prefix("abc", "abc"), Some(String::new()));
    assert_eq!(strip_prefix("abc", "b"), None);
    assert!(ends_with("a.cpp", ".cpp"));
    assert!(!ends_with("a.cp", ".cpp"));
    assert!(!ends_with("cpp", ".cpp"));
    assert!(ends_with("x", ""));
}

#[test]
fn texts_are_ordered_like_strings() {
    let words = ["", "a", "ab", "b", "B", "é", "z", "\u{ffff}", "\u{10000}", "a\\b", "a.b"];
    for a in words {
        for b in words {
            assert_eq!(str_less(a, b), a < b);
            assert_eq!(same_text(a, b), a == b);
        }
    }
}
