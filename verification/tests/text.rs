use dart2csharp::text::{
    chars_of, contains_char, count_leading_spaces, count_trailing_spaces, ends_with,
    has_no_space, has_open_end, is_blank, is_space_char, join, replace_all, same, slice,
    starts_with, trim,
};

#[test]
fn white_space_is_the_unicode_property() {
    let mut code: u32 = 0;
    while code <= 0x10ffff {
        if let Some(c) = char::from_u32(code) {
            assert_eq!(is_space_char(c), c.is_whitespace(), "U+{:04X}", code);
        }
        code += 1;
    }
}

#[test]
fn white_space_characters() {
    for c in [' ', '\t', '\n', '\u{b}', '\u{c}', '\r', '\u{85}', '\u{a0}', '\u{1680}', '\u{2000}',
        '\u{200a}', '\u{2028}', '\u{2029}', '\u{202f}', '\u{205f}', '\u{3000}']
    {
        assert!(is_space_char(c));
    }
    for c in ['a', '0', '_', '=', '@', '\u{8}', '\u{e}', '\u{1f}', '\u{200b}', '\u{180e}', '\u{feff}'] {
        assert!(!is_space_char(c));
    }
}

#[test]
fn trim_cuts_both_ends() {
    assert_eq!(trim(""), "");
    assert_eq!(trim("   "), "");
    assert_eq!(trim("a"), "a");
    assert_eq!(trim("  a b  "), "a b");
    assert_eq!(trim("\n\t a\u{a0}b \u{3000}\r\n"), "a\u{a0}b");
    assert_eq!(trim("\u{e9}t\u{e9} "), "\u{e9}t\u{e9}");
    for text in ["", " ", "x", " x", "x ", " \u{2003}x y\u{2028}", "\u{1f600} ", "\n\n"] {
        assert_eq!(trim(text), text.trim());
    }
}

#[test]
fn spaces_are_counted() {
    let v: Vec<char> = " \t a b \n".chars().collect();
    assert_eq!(count_leading_spaces(&v), 3);
    assert_eq!(count_trailing_spaces(&v), 2);
    let blank: Vec<char> = "  ".chars().collect();
    assert_eq!(count_leading_spaces(&blank), 2);
    assert_eq!(count_trailing_spaces(&blank), 2);
    let none: Vec<char> = Vec::new();
    assert_eq!(count_leading_spaces(&none), 0);
    assert_eq!(count_trailing_spaces(&none), 0);
}

#[test]
fn chars_of_a_text() {
    assert_eq!(chars_of(""), Vec::<char>::new());
    assert_eq!(chars_of("a\u{e9}\u{1f600}"), vec!['a', '\u{e9}', '\u{1f600}']);
}

#[test]
fn same_compares_characters() {
    assert!(same("", ""));
    assert!(same("void", "void"));
    assert!(same("\u{e9}", "\u{e9}"));
    assert!(!same("void", "voi"));
    assert!(!same("void", "voit"));
    assert!(!same("", " "));
}

#[test]
fn characters_are_found() {
    assert!(contains_char("a = b", '='));
    assert!(contains_char("=", '='));
    assert!(!contains_char("", '='));
    assert!(!contains_char("a b", '='));
    assert!(starts_with("_a", '_'));
    assert!(!starts_with("a_", '_'));
    assert!(!starts_with("", '_'));
    assert!(ends_with("a,", ','));
    assert!(!ends_with(",a", ','));
    assert!(!ends_with("", ','));
}

#[test]
fn replace_all_takes_occurrences_from_the_left() {
    assert_eq!(replace_all("", "ab", "x"), "");
    assert_eq!(replace_all("ab", "ab", "x"), "x");
    assert_eq!(replace_all("cabab", "ab", ""), "c");
    assert_eq!(replace_all("aaa", "aa", "b"), "ba");
    assert_eq!(replace_all("a", "ab", "x"), "a");
    assert_eq!(replace_all("\u{e9}ab\u{e9}", "ab", "\u{1f600}"), "\u{e9}\u{1f600}\u{e9}");
    for text in ["", "x", "@required", "a @required b @required", "@@required", "@require d", "@requiredd@required"] {
        assert_eq!(replace_all(text, "@required", "/* */"), text.replace("@required", "/* */"));
    }
}

#[test]
fn join_puts_the_separator_between() {
    assert_eq!(join(&vec![], ",\n"), "");
    assert_eq!(join(&vec![String::from("a")], ",\n"), "a");
    assert_eq!(join(&vec![String::from("a"), String::from("b"), String::from("c")], ",\n"), "a,\nb,\nc");
    assert_eq!(join(&vec![String::from(""), String::from("")], "-"), "-");
}

#[test]
fn slice_cuts_at_byte_offsets() {
    assert_eq!(slice("hello", 0, 5), "hello");
    assert_eq!(slice("hello", 1, 3), "el");
    assert_eq!(slice("hello", 2, 2), "");
    assert_eq!(slice("h\u{e9}llo", 1, 3), "\u{e9}");
    assert_eq!(slice("h\u{e9}llo", 3, 6), "llo");
}

#[test]
fn white_space_in_a_text() {
    assert!(has_no_space(""));
    assert!(has_no_space("run_2"));
    assert!(!has_no_space("a b"));
    assert!(!has_no_space("a\u{a0}"));
    assert!(is_blank(""));
    assert!(is_blank(" \n\u{3000}"));
    assert!(!is_blank(" a "));
    assert!(has_open_end(""));
    assert!(has_open_end("a "));
    assert!(has_open_end("a;\n"));
    assert!(!has_open_end(" a"));
    assert!(!has_open_end("_"));
}
