use bina::text::{chars_of, contains, digit_of, is_digit_char, number_text, parse_integer, string_of};

#[test]
fn characters_of_a_text() {
    assert_eq!(chars_of(""), Vec::<char>::new());
    assert_eq!(chars_of("a\u{e9}\n"), vec!['a', '\u{e9}', '\n']);
}

#[test]
fn string_of_a_range_of_characters() {
    let chars = vec!['a', 'b', '\u{e9}', 'd'];
    assert_eq!(string_of(&chars, 0, 4), "ab\u{e9}d");
    assert_eq!(string_of(&chars, 1, 3), "b\u{e9}");
    assert_eq!(string_of(&chars, 2, 2), "");
}

#[test]
fn digits() {
    for (c, d) in "0123456789".chars().zip(0i64..) {
        assert!(is_digit_char(c));
        assert_eq!(digit_of(c), d);
    }
    for c in ['a', ' ', '/', ':', '\u{663}', '-'] {
        assert!(!is_digit_char(c));
    }
}

#[test]
fn numbers_are_written_in_decimal() {
    for n in [
        0,
        1,
        9,
        10,
        11,
        99,
        100,
        142,
        -1,
        -9,
        -10,
        -100,
        1234567890,
        i64::MAX,
        i64::MIN,
        i64::MIN + 1,
        999999999999999999,
    ] {
        assert_eq!(number_text(n), n.to_string());
    }
    assert_eq!(number_text(-42), "-42");
    assert_eq!(number_text(1000), "1000");
}

#[test]
fn integers_are_read_as_the_standard_library_reads_them() {
    for s in [
        "", "0", "5", "-5", "+5", "--5", "+-5", "-", "+", "007", "-007", "+0", "-0", "12a", "a12",
        " 12", "12 ", "1 2", "1.0", "1e3", "0x1f", "9223372036854775807", "9223372036854775808",
        "-9223372036854775808", "-9223372036854775809", "+9223372036854775807",
        "99999999999999999999999999", "-99999999999999999999999999",
        "00000000000000000000000000000001", "\u{663}", "1\u{663}", "١٢٣",
    ] {
        assert_eq!(parse_integer(s), s.parse::<i64>().ok(), "reading {:?}", s);
    }
    assert_eq!(parse_integer("142"), Some(142));
    assert_eq!(parse_integer("-9223372036854775808"), Some(i64::MIN));
    assert_eq!(parse_integer("abc"), None);
}

#[test]
fn reading_what_was_written_gives_the_number_back() {
    for n in [0, 1, -1, 10, -10, 123456789, i64::MAX, i64::MIN] {
        assert_eq!(parse_integer(&number_text(n)), Some(n));
    }
}

#[test]
fn substring_search() {
    for (hay, needle) in [
        ("0123456789", "3"),
        ("0123456789", "0"),
        ("0123456789", "9"),
        ("0123456789", "89"),
        ("0123456789", "98"),
        ("0123456789", "0123456789"),
        ("0123456789", "01234567890"),
        ("0123456789", ""),
        ("", ""),
        ("", "a"),
        ("aaab", "aab"),
        ("aaab", "aba"),
        ("abcabd", "abd"),
        ("h\u{e9}llo", "\u{e9}l"),
        ("h\u{e9}llo", "e"),
        ("3", "0123456789"),
    ] {
        assert_eq!(contains(hay, needle), hay.contains(needle), "{:?} in {:?}", needle, hay);
    }
    assert!(contains("0123456789", "345"));
    assert!(!contains("0123456789", "346"));
}
