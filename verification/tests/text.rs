use vienna::text::{decimal_u64, parse_unsigned, split_once, text_less};

#[test]
fn unsigned_numbers_parse_as_from_str_does() {
    assert_eq!(parse_unsigned("0", u64::MAX), Some(0));
    assert_eq!(parse_unsigned("+12", u64::MAX), Some(12));
    assert_eq!(parse_unsigned("007", u64::MAX), Some(7));
    assert_eq!(parse_unsigned("65535", 65535), Some(65535));
    assert_eq!(parse_unsigned("65536", 65535), None);
    assert_eq!(parse_unsigned("18446744073709551615", u64::MAX), Some(u64::MAX));
    assert_eq!(parse_unsigned("18446744073709551616", u64::MAX), None);
    assert_eq!(parse_unsigned("", u64::MAX), None);
    assert_eq!(parse_unsigned("+", u64::MAX), None);
    assert_eq!(parse_unsigned("-1", u64::MAX), None);
    assert_eq!(parse_unsigned(" 1", u64::MAX), None);
    for n in [0u64, 9, 10, 99, 1234567890, u64::MAX] {
        assert_eq!(parse_unsigned(&decimal_u64(n), u64::MAX), Some(n));
        assert_eq!(decimal_u64(n), n.to_string());
    }
}

#[test]
fn splitting_happens_at_the_first_separator() {
    assert_eq!(split_once("a b c", ' '), Some(("a".to_owned(), "b c".to_owned())));
    assert_eq!(split_once(" lead", ' '), Some(("".to_owned(), "lead".to_owned())));
    assert_eq!(split_once("none", ' '), None);
}

#[test]
fn text_order_is_by_code_point() {
    assert!(text_less("a", "b"));
    assert!(text_less("a", "ab"));
    assert!(!text_less("ab", "a"));
    assert!(!text_less("same", "same"));
    assert!(text_less("Z", "a"));
    assert!(text_less("z", "é"));
}
