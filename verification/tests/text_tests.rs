use gengen::text::{blank, chars_of, digit, parse_numeral, split_words};

fn words(text: &str) -> Vec<String> {
    split_words(&chars_of(text)).into_iter().map(|w| w.into_iter().collect()).collect()
}

#[test]
fn chars_come_in_order() {
    assert_eq!(chars_of("a+ 1"), vec!['a', '+', ' ', '1']);
    assert_eq!(chars_of(""), Vec::<char>::new());
    assert_eq!(chars_of("é∑"), vec!['é', '∑']);
}

#[test]
fn blanks_are_the_white_space_characters() {
    for c in [' ', '\t', '\n', '\u{0B}', '\u{0C}', '\r', '\u{85}', '\u{A0}', '\u{1680}', '\u{2000}',
        '\u{200A}', '\u{2028}', '\u{2029}', '\u{202F}', '\u{205F}', '\u{3000}']
    {
        assert!(blank(c));
    }
    for c in ['a', '0', '+', '\u{08}', '\u{0E}', '\u{200B}', '\u{180E}', '\u{FEFF}'] {
        assert!(!blank(c));
    }
}

#[test]
fn blank_agrees_with_the_standard_library() {
    for n in 0..0x11_0000u32 {
        if let Some(c) = char::from_u32(n) {
            assert_eq!(blank(c), c.is_whitespace(), "U+{:04X}", n);
        }
    }
}

#[test]
fn digits_are_zero_to_nine() {
    for c in "0123456789".chars() {
        assert!(digit(c));
    }
    for c in ['/', ':', 'a', ' ', '٣', '²'] {
        assert!(!digit(c));
    }
}

#[test]
fn words_are_split_at_blanks() {
    assert_eq!(words("3 + 4"), vec!["3", "+", "4"]);
    assert_eq!(words("  lead and trail \t"), vec!["lead", "and", "trail"]);
    assert_eq!(words("one"), vec!["one"]);
    assert_eq!(words("a\u{3000}b\nc"), vec!["a", "b", "c"]);
}

#[test]
fn no_words_in_blank_text() {
    assert_eq!(words(""), Vec::<String>::new());
    assert_eq!(words(" \t\n "), Vec::<String>::new());
}

#[test]
fn splitting_agrees_with_the_standard_library() {
    for text in ["", " ", "a", " a", "a ", "3 + 4 * ( 2 - 1 )", "x\t\ty  z\n", "\u{2003}q\u{A0}r"] {
        let expected: Vec<String> = text.split_whitespace().map(|w| w.to_string()).collect();
        assert_eq!(words(text), expected);
    }
}

#[test]
fn numerals_are_read() {
    let read = |text: &str, limit: u64| parse_numeral(&chars_of(text), limit);
    assert_eq!(read("0", 10), Some(0));
    assert_eq!(read("7", 10), Some(7));
    assert_eq!(read("10", 10), Some(10));
    assert_eq!(read("0010", 10), Some(10));
    assert_eq!(read("18446744073709551615", u64::MAX), Some(u64::MAX));
}

#[test]
fn numerals_above_the_limit_are_not_read() {
    let read = |text: &str, limit: u64| parse_numeral(&chars_of(text), limit);
    assert_eq!(read("11", 10), None);
    assert_eq!(read("100", 10), None);
    assert_eq!(read("18446744073709551616", u64::MAX), None);
    assert_eq!(read("99999999999999999999999999", u64::MAX), None);
    assert_eq!(read("1", 0), None);
    assert_eq!(read("0", 0), Some(0));
}

#[test]
fn only_digits_make_a_numeral() {
    let read = |text: &str| parse_numeral(&chars_of(text), u64::MAX);
    assert_eq!(read(""), None);
    assert_eq!(read("+1"), None);
    assert_eq!(read("-1"), None);
    assert_eq!(read("1a"), None);
    assert_eq!(read("a1"), None);
    assert_eq!(read("1 "), None);
    assert_eq!(read("٣"), None);
}
