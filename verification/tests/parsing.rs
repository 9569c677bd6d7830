//! The input format: accepted shapes and each rejection.

use ghs_mst::{parse_input, ParseError};

fn parse_str(s: &str) -> Result<(usize, Vec<(usize, usize, i64)>), ParseError> {
    let v: Vec<u8> = s.as_bytes().to_vec();
    parse_input(&v)
}

#[test]
fn count_and_edges() {
    let (n, es) = parse_str("3\n(0, 1, 1)\n(1, 2, 2)\n(0, 2, 3)\n").unwrap();
    assert_eq!(n, 3);
    assert_eq!(es, vec![(0, 1, 1), (1, 2, 2), (0, 2, 3)]);
}

#[test]
fn no_trailing_newline() {
    let (n, es) = parse_str("2\n(0, 1, 7)").unwrap();
    assert_eq!(n, 2);
    assert_eq!(es, vec![(0, 1, 7)]);
}

#[test]
fn whitespace_is_ignored() {
    let (n, es) = parse_str("  2 \r\n  ( 0 ,\t1 , 7 )  \r\n").unwrap();
    assert_eq!(n, 2);
    assert_eq!(es, vec![(0, 1, 7)]);
}

#[test]
fn parentheses_are_optional() {
    let (n, es) = parse_str("2\n0, 1, 7\n").unwrap();
    assert_eq!(n, 2);
    assert_eq!(es, vec![(0, 1, 7)]);
}

#[test]
fn negative_weight() {
    let (_, es) = parse_str("2\n(0, 1, -42)\n").unwrap();
    assert_eq!(es, vec![(0, 1, -42)]);
}

#[test]
fn blank_lines_are_skipped() {
    let (n, es) = parse_str("\n\n2\n\n(0, 1, 7)\n\n").unwrap();
    assert_eq!(n, 2);
    assert_eq!(es, vec![(0, 1, 7)]);
}

#[test]
fn empty_input() {
    assert_eq!(parse_str(""), Err(ParseError::MissingCount));
}

#[test]
fn only_whitespace() {
    assert_eq!(parse_str("  \n \t \n"), Err(ParseError::MissingCount));
}

#[test]
fn count_not_numeric() {
    assert_eq!(parse_str("abc\n(0, 1, 7)\n"), Err(ParseError::BadNumber));
}

#[test]
fn edge_with_two_fields() {
    assert_eq!(parse_str("2\n(0, 1)\n"), Err(ParseError::BadShape));
}

#[test]
fn edge_with_four_fields() {
    assert_eq!(parse_str("2\n(0, 1, 7, 9)\n"), Err(ParseError::BadShape));
}

#[test]
fn edge_endpoint_not_numeric() {
    assert_eq!(parse_str("2\n(a, 1, 7)\n"), Err(ParseError::BadNumber));
}

#[test]
fn edge_endpoint_negative() {
    assert_eq!(parse_str("2\n(-1, 1, 7)\n"), Err(ParseError::BadNumber));
}

#[test]
fn count_too_large() {
    assert_eq!(
        parse_str("99999999999999999999999999\n(0, 1, 7)\n"),
        Err(ParseError::TooLarge)
    );
}

#[test]
fn weight_too_large() {
    assert_eq!(
        parse_str("2\n(0, 1, 9223372036854775808)\n"),
        Err(ParseError::TooLarge)
    );
}

#[test]
fn weight_extremes_fit() {
    let (_, es) = parse_str("2\n(0, 1, 9223372036854775807)\n(0, 1, -9223372036854775808)\n")
        .unwrap();
    assert_eq!(es, vec![(0, 1, i64::MAX), (0, 1, i64::MIN)]);
}

#[test]
fn first_bad_line_decides() {
    assert_eq!(parse_str("2\n(0, 1)\n(a, 1, 7)\n"), Err(ParseError::BadShape));
}
