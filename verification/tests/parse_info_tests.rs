use parser::literal::{parse_ident, parse_string, parse_with_references};
use parser::parse_info::{get_line, ParseError, ParseInfo};

#[test]
fn parse_to_skips_whitespace() {
    let mut parsing = ParseInfo::new(b"  hello , wor ld)");
    assert_eq!(parsing.parse_to(b','), Some("hello".to_string()));
    assert_eq!(parsing.parse_to(b')'), Some("world".to_string()));
    assert_eq!(parsing.parse_to(b')'), None);
}

#[test]
fn parse_to_space_stops_at_blank() {
    let mut parsing = ParseInfo::new(b"ab cd");
    assert_eq!(parsing.parse_to_space(), Some("ab".to_string()));
    assert_eq!(parsing.index, 3);
    assert_eq!(parsing.parse_to_space(), None);
}

#[test]
fn parse_to_or_end_respects_the_end() {
    let mut parsing = ParseInfo::new(b"abcd,");
    assert_eq!(parsing.parse_to_or_end(b',', 3), None);
    let mut parsing = ParseInfo::new(b"abcd,");
    assert_eq!(parsing.parse_to_or_end(b',', 5), Some("abcd".to_string()));
}

#[test]
fn block_comment_is_skipped() {
    let mut parsing = ParseInfo::new(b"/* x */y");
    assert_eq!(parsing.next_included(), Some(b'y'));
    assert_eq!(parsing.index, 8);
}

#[test]
fn character_after_block_comment_is_read_as_is() {
    let mut parsing = ParseInfo::new(b"/* x */ y");
    assert_eq!(parsing.next_included(), Some(b' '));
    assert_eq!(parsing.index, 8);
}

#[test]
fn newline_moves_to_next_line() {
    let mut parsing = ParseInfo::new(b"\n\nx");
    assert_eq!(parsing.next_included(), Some(b'x'));
    assert_eq!(parsing.loc(), (3, 2));
}

#[test]
fn find_next_compares_next_character() {
    let mut parsing = ParseInfo::new(b" x y");
    assert!(parsing.find_next(b'x'));
    assert!(!parsing.find_next(b'z'));
    assert!(!parsing.find_next(b'y'));
}

#[test]
fn matching_restores_on_failure() {
    let mut parsing = ParseInfo::new(b" a b c");
    assert!(parsing.matching("ab"));
    assert_eq!(parsing.index, 4);
    let mut parsing = ParseInfo::new(b"a b");
    assert!(!parsing.matching("ac"));
    assert_eq!(parsing.index, 0);
    assert_eq!(parsing.loc(), (1, 0));
}

#[test]
fn create_error_records_and_skips_line() {
    let mut parsing = ParseInfo::new(b"ab\ncd");
    parsing.index = 1;
    parsing.create_error("bad".to_string());
    assert_eq!(parsing.errors.len(), 1);
    assert_eq!(parsing.errors[0].row, 1);
    assert_eq!(parsing.errors[0].column, 1);
    assert_eq!(parsing.errors[0].line, "ab");
    assert_eq!(parsing.errors[0].error, "bad");
    assert_eq!(parsing.index, 4);
    assert_eq!(parsing.loc(), (2, 2));
}

#[test]
fn skip_line_moves_past_the_line() {
    let mut parsing = ParseInfo::new(b"ab\ncd");
    parsing.skip_line();
    assert_eq!(parsing.index, 4);
    assert_eq!(parsing.line, 2);
}

#[test]
fn error_prints_location_and_message() {
    let error = ParseError::new(12, 305, "let x".to_string(), "oops".to_string());
    assert_eq!(error.to_string(), "Error at line \"let x\" (12:305): oops");
    let error = ParseError::new(0, 0, String::new(), String::new());
    assert_eq!(error.to_string(), "Error at line \"\" (0:0): ");
}

#[test]
fn find_end_str_moves_past_the_quote() {
    let mut parsing = ParseInfo::new(b"ab\"c");
    parsing.find_end_str();
    assert_eq!(parsing.index, 3);
    let mut parsing = ParseInfo::new(b"a\\\"\"c");
    parsing.find_end_str();
    assert_eq!(parsing.index, 4);
}

#[test]
fn find_end_moves_past_the_block() {
    let mut parsing = ParseInfo::new(b"{a{b}c}d");
    parsing.find_end();
    assert_eq!(parsing.index, 7);
}

#[test]
fn lines_of_a_buffer() {
    assert_eq!(get_line(b"ab\ncd", 0), "ab");
    assert_eq!(get_line(b"ab\ncd", 3), "cd");
    assert_eq!(get_line(b"ab\ncd", 5), "");
    assert_eq!(get_line(b"a\xffb\n", 0), "a\u{FFFD}b");
}

#[test]
fn string_literal_reads_to_quote() {
    let mut parsing = ParseInfo::new(b"abc\"rest");
    assert_eq!(parse_string(&mut parsing), Some("abc".to_string()));
    assert_eq!(parsing.index, 3);
}

#[test]
fn escaped_backslash_and_quote() {
    let mut parsing = ParseInfo::new(b"a\\\\b\"");
    assert_eq!(parse_string(&mut parsing), Some("a\\b".to_string()));
    let mut parsing = ParseInfo::new(b"a\\\"b\"");
    assert_eq!(parse_string(&mut parsing), Some("ab".to_string()));
}

#[test]
fn unended_string_is_an_error() {
    let mut parsing = ParseInfo::new(b"abc");
    assert_eq!(parse_string(&mut parsing), None);
    assert_eq!(parsing.errors.len(), 1);
    assert_eq!(parsing.errors[0].error, "Missing end to string!");
    assert_eq!(parsing.errors[0].column, 3);
}

#[test]
fn identifiers_and_references() {
    let mut parsing = ParseInfo::new(b"hello world");
    assert_eq!(parse_ident(&mut parsing), "hello");
    assert_eq!(parsing.index, 5);
    let mut parsing = ParseInfo::new(b"a::b c");
    assert_eq!(parse_with_references(&mut parsing), "a::b");
    let mut parsing = ParseInfo::new(b"a::b c");
    assert_eq!(parse_ident(&mut parsing), "a");
    let mut parsing = ParseInfo::new(b"9x");
    assert_eq!(parse_ident(&mut parsing), "9x");
}
