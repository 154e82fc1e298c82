use parser::text::{char_is_alphabetic, char_is_alphanumeric, char_is_numeric, char_is_whitespace, parse_i64, str_eq};

#[test]
fn numbers_read_like_the_standard_library() {
    assert_eq!(parse_i64("42"), Some(42));
    assert_eq!(parse_i64("+7"), Some(7));
    assert_eq!(parse_i64("-15"), Some(-15));
    assert_eq!(parse_i64("00012"), Some(12));
    assert_eq!(parse_i64("-9223372036854775808"), Some(i64::MIN));
    assert_eq!(parse_i64("9223372036854775807"), Some(i64::MAX));
    assert_eq!(parse_i64("9223372036854775808"), None);
    assert_eq!(parse_i64("-9223372036854775809"), None);
    assert_eq!(parse_i64("123456789012345678901234567890"), None);
    assert_eq!(parse_i64(""), None);
    assert_eq!(parse_i64("-"), None);
    assert_eq!(parse_i64("1a"), None);
    assert_eq!(parse_i64(" 1"), None);
    for text in ["0", "-0", "+0", "31", "x", "--1", "1_000"] {
        assert_eq!(parse_i64(text), text.parse::<i64>().ok());
    }
}

#[test]
fn ascii_classes() {
    for code in 0u8..128 {
        let c = code as char;
        assert_eq!(char_is_alphabetic(c), c.is_ascii_alphabetic());
        assert_eq!(char_is_numeric(c), c.is_ascii_digit());
        assert_eq!(char_is_alphanumeric(c), c.is_ascii_alphanumeric());
        assert_eq!(char_is_whitespace(c), c == ' ' || ('\t'..='\r').contains(&c));
    }
    assert!(char_is_alphanumeric('é'));
}

#[test]
fn string_equality() {
    assert!(str_eq("abc", "abc"));
    assert!(!str_eq("abc", "abd"));
    assert!(!str_eq("ab", "abc"));
}
