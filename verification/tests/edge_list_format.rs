use social_graph::edge_list::{
    find_line_end, find_token_end, find_token_start, parse_edge, parse_number,
};
use social_graph::error::FormatErrorKind;

#[test]
fn numbers_are_decimal_digits() {
    assert_eq!(parse_number(b"0"), Some(0));
    assert_eq!(parse_number(b"42"), Some(42));
    assert_eq!(parse_number(b"007"), Some(7));
    assert_eq!(parse_number(b"+15"), Some(15));
    assert_eq!(parse_number(b"4039"), Some(4039));
}

#[test]
fn what_is_no_number() {
    assert_eq!(parse_number(b""), None);
    assert_eq!(parse_number(b"+"), None);
    assert_eq!(parse_number(b"-1"), None);
    assert_eq!(parse_number(b"++1"), None);
    assert_eq!(parse_number(b"1+"), None);
    assert_eq!(parse_number(b"12a"), None);
    assert_eq!(parse_number(b"1 2"), None);
    assert_eq!(parse_number(b"0x10"), None);
}

#[test]
fn numbers_up_to_the_largest_word() {
    let largest = format!("{}", usize::MAX);
    assert_eq!(parse_number(largest.as_bytes()), Some(usize::MAX));
    let padded = format!("000{}", usize::MAX);
    assert_eq!(parse_number(padded.as_bytes()), Some(usize::MAX));
    let too_large = format!("{}0", usize::MAX);
    assert_eq!(parse_number(too_large.as_bytes()), None);
    let one_more = format!("{}", usize::MAX as u128 + 1);
    assert_eq!(parse_number(one_more.as_bytes()), None);
    assert_eq!(parse_number(b"340282366920938463463374607431768211456"), None);
}

#[test]
fn edge_lines() {
    assert_eq!(parse_edge(b"0 1", 4), Ok((0, 1)));
    assert_eq!(parse_edge(b"3 3", 4), Ok((3, 3)));
    assert_eq!(parse_edge(b"  2\t\t0  ", 4), Ok((2, 0)));
    assert_eq!(parse_edge(b"1 2 3", 4), Ok((1, 2)));
    assert_eq!(parse_edge(b"1 2 x", 4), Ok((1, 2)));
}

#[test]
fn edge_line_errors() {
    assert_eq!(parse_edge(b"", 4), Err(FormatErrorKind::MissingToken));
    assert_eq!(parse_edge(b"   ", 4), Err(FormatErrorKind::MissingToken));
    assert_eq!(parse_edge(b"1", 4), Err(FormatErrorKind::MissingToken));
    assert_eq!(parse_edge(b"x", 4), Err(FormatErrorKind::MissingToken));
    assert_eq!(parse_edge(b"x 1", 4), Err(FormatErrorKind::MalformedNodeId));
    assert_eq!(parse_edge(b"1 x", 4), Err(FormatErrorKind::MalformedNodeId));
    assert_eq!(parse_edge(b"1,2 3", 4), Err(FormatErrorKind::MalformedNodeId));
    assert_eq!(parse_edge(b"4 0", 4), Err(FormatErrorKind::NodeOutOfRange));
    assert_eq!(parse_edge(b"0 4", 4), Err(FormatErrorKind::NodeOutOfRange));
    assert_eq!(parse_edge(b"0 0", 0), Err(FormatErrorKind::NodeOutOfRange));
}

#[test]
fn lines_end_at_line_feeds() {
    let text = b"12\n3 4\n";
    assert_eq!(find_line_end(text, 0), 2);
    assert_eq!(find_line_end(text, 2), 2);
    assert_eq!(find_line_end(text, 3), 6);
    assert_eq!(find_line_end(text, 7), 7);
    assert_eq!(find_line_end(b"abc", 1), 3);
}

#[test]
fn tokens_are_runs_without_blanks() {
    let line = b"  12 \t 7";
    assert_eq!(find_token_start(line, 0), 2);
    assert_eq!(find_token_end(line, 2), 4);
    assert_eq!(find_token_start(line, 4), 7);
    assert_eq!(find_token_end(line, 7), 8);
    assert_eq!(find_token_start(line, 8), 8);
    assert_eq!(find_token_start(b" \x0b\x0c\r\n\tx", 0), 6);
}
