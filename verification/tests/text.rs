use automata_rust::text::{
    byte_len, first_char, is_whitespace_char, len_utf8, push_decimal, push_escaped, push_text,
    str_eq,
};

fn all_chars() -> Vec<char> {
    (0u32..=0x10ffff).filter_map(char::from_u32).collect()
}

#[test]
fn len_utf8_is_the_width_of_every_character() {
    for c in all_chars() {
        assert_eq!(len_utf8(c), c.len_utf8(), "{c:?}");
    }
}

#[test]
fn len_utf8_at_the_edges_of_each_width() {
    assert_eq!(len_utf8('\0'), 1);
    assert_eq!(len_utf8('\u{7f}'), 1);
    assert_eq!(len_utf8('\u{80}'), 2);
    assert_eq!(len_utf8('\u{7ff}'), 2);
    assert_eq!(len_utf8('\u{800}'), 3);
    assert_eq!(len_utf8('\u{ffff}'), 3);
    assert_eq!(len_utf8('\u{10000}'), 4);
    assert_eq!(len_utf8('\u{10ffff}'), 4);
}

#[test]
fn whitespace_is_what_unicode_says() {
    for c in all_chars() {
        assert_eq!(is_whitespace_char(c), c.is_whitespace(), "{c:?}");
    }
}

#[test]
fn escaping_is_that_of_the_standard_library() {
    for c in all_chars() {
        let mut out = String::new();
        push_escaped(&mut out, c);
        let expected: String = c.escape_default().collect();
        assert_eq!(out, expected, "{c:?}");
    }
}

#[test]
fn escaping_appends_to_what_is_there() {
    let mut out = String::from("x");
    push_escaped(&mut out, '\n');
    push_escaped(&mut out, 'a');
    push_escaped(&mut out, '\u{e9}');
    push_escaped(&mut out, '\0');
    assert_eq!(out, "x\\na\\u{e9}\\u{0}");
}

#[test]
fn decimal_digits() {
    for (v, text) in [
        (0usize, "0"),
        (7, "7"),
        (10, "10"),
        (42, "42"),
        (1999, "1999"),
        (1_000_000, "1000000"),
    ] {
        let mut out = String::new();
        push_decimal(&mut out, v);
        assert_eq!(out, text);
    }
    let mut out = String::from("n=");
    push_decimal(&mut out, usize::MAX);
    assert_eq!(out, format!("n={}", usize::MAX));
}

#[test]
fn text_is_appended() {
    let mut out = String::from("ab");
    push_text(&mut out, "cd\u{e9}");
    push_text(&mut out, "");
    assert_eq!(out, "abcd\u{e9}");
}

#[test]
fn strings_are_compared_by_their_characters() {
    assert!(str_eq("", ""));
    assert!(str_eq("abc", "abc"));
    assert!(!str_eq("abc", "abd"));
    assert!(!str_eq("abc", "ab"));
    assert!(!str_eq("ab", "abc"));
    assert!(str_eq("\u{e9}\u{10000}", "\u{e9}\u{10000}"));
    assert!(!str_eq("\u{e9}", "\u{e8}"));
}

#[test]
fn length_in_bytes_and_first_character() {
    assert_eq!(byte_len(""), 0);
    assert_eq!(byte_len("abc"), 3);
    assert_eq!(byte_len("\u{e9}\u{10000}a"), 7);
    assert_eq!(first_char(""), None);
    assert_eq!(first_char("abc"), Some('a'));
    assert_eq!(first_char("\u{e9}b"), Some('\u{e9}'));
}
