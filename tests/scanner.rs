use bmfont_parser::{NumberKind, Parser};

#[test]
fn peek_looks_ahead_without_moving() {
    let p = Parser::new("ab");
    assert_eq!(p.peek(0), Some('a'));
    assert_eq!(p.peek(1), Some('b'));
    assert_eq!(p.peek(2), None);
    assert_eq!(p.peek(usize::MAX), None);
    assert_eq!(p.peek(0), Some('a'));
}

#[test]
fn skip_whitespace_stops_at_text_and_is_idempotent() {
    let mut p = Parser::new(" \t\r\n x");
    p.skip_whitespace();
    assert_eq!(p.peek(0), Some('x'));
    p.skip_whitespace();
    assert_eq!(p.peek(0), Some('x'));
    let mut empty = Parser::new("");
    empty.skip_whitespace();
    assert!(empty.is_finished());
}

#[test]
fn literal_matching_is_all_or_nothing() {
    let mut p = Parser::new("inf");
    assert!(p.expect("info").get().is_err());
    assert_eq!(p.peek(0), Some('i'));
    assert!(p.expect("in").get().is_ok());
    assert_eq!(p.peek(0), Some('f'));
}

#[test]
fn first_alternative_that_matches_wins() {
    let mut p = Parser::new("xoffset=1");
    let e = p.expect("id").or("x", &mut p).or("xoffset", &mut p);
    assert_eq!(e.get(), Ok("x".to_string()));
    assert_eq!(p.peek(0), Some('o'));
}

#[test]
fn failed_alternation_lists_every_attempt() {
    let mut p = Parser::new("foo=1");
    let e = p.expect("id").or("file", &mut p);
    assert_eq!(e.get(), Err(vec!["id".to_string(), "file".to_string()]));
    assert_eq!(p.peek(0), Some('f'));
}

#[test]
fn number_stops_at_first_non_digit() {
    let mut p = Parser::new("123a");
    assert_eq!(p.expect_number(NumberKind::Unsigned), Some(123));
    assert_eq!(p.peek(0), Some('a'));
}

#[test]
fn lone_or_double_minus_is_no_number() {
    let mut p = Parser::new("-");
    assert_eq!(p.expect_number(NumberKind::Signed), None);
    assert_eq!(p.peek(0), Some('-'));
    let mut p = Parser::new("--5");
    assert_eq!(p.expect_number(NumberKind::Signed), None);
    assert_eq!(p.peek(0), Some('-'));
    let mut p = Parser::new("");
    assert_eq!(p.expect_number(NumberKind::Unsigned), None);
}

#[test]
fn negative_number_needs_a_signed_kind() {
    let mut p = Parser::new("-5");
    assert_eq!(p.expect_number(NumberKind::Unsigned), None);
    assert_eq!(p.peek(0), Some('-'));
    assert_eq!(p.expect_number(NumberKind::Signed), Some(-5));
    assert!(p.is_finished());
    let mut p = Parser::new("-0");
    assert_eq!(p.expect_number(NumberKind::Unsigned), None);
}

#[test]
fn overflowing_digits_are_left_unread() {
    let mut p = Parser::new("4294967295");
    assert_eq!(p.expect_number(NumberKind::Unsigned), Some(4294967295));
    assert!(p.is_finished());
    let mut p = Parser::new("4294967296");
    assert_eq!(p.expect_number(NumberKind::Unsigned), Some(429496729));
    assert_eq!(p.peek(0), Some('6'));
    let mut p = Parser::new("99999999999");
    assert_eq!(p.expect_number(NumberKind::Unsigned), Some(999999999));
    let mut p = Parser::new("-2147483648");
    assert_eq!(p.expect_number(NumberKind::Signed), Some(-2147483648));
    let mut p = Parser::new("-2147483649");
    assert_eq!(p.expect_number(NumberKind::Signed), Some(-214748364));
    let mut p = Parser::new("2147483648");
    assert_eq!(p.expect_number(NumberKind::Signed), Some(214748364));
}

#[test]
fn quoted_identifier_keeps_whitespace() {
    let mut p = Parser::new("\"Iosevka Term\" rest");
    assert_eq!(p.expect_ident(), Some("Iosevka Term".to_string()));
    assert_eq!(p.peek(0), Some(' '));
}

#[test]
fn bare_identifier_runs_to_whitespace() {
    let mut p = Parser::new("iosevka.png\n486");
    assert_eq!(p.expect_ident(), Some("iosevka.png".to_string()));
    assert_eq!(p.peek(0), Some('\n'));
}

#[test]
fn empty_identifier_fails_but_empty_quotes_do_not() {
    let mut p = Parser::new(" x");
    assert_eq!(p.expect_ident(), None);
    assert_eq!(p.peek(0), Some(' '));
    let mut p = Parser::new("\"\" x");
    assert_eq!(p.expect_ident(), Some(String::new()));
    assert_eq!(p.peek(0), Some(' '));
    let mut p = Parser::new("\"open");
    assert_eq!(p.expect_ident(), Some("open".to_string()));
    assert!(p.is_finished());
}

#[test]
fn assignment_and_key_length() {
    let p = Parser::new("foo=1");
    assert!(p.at_assignment());
    assert_eq!(p.key_length(), 3);
    let p = Parser::new("char id=1");
    assert!(!p.at_assignment());
    assert_eq!(p.key_length(), 4);
    let p = Parser::new("=1");
    assert!(!p.at_assignment());
}

#[test]
fn finished_only_at_the_end() {
    let mut p = Parser::new("a");
    assert!(!p.is_finished());
    assert_eq!(p.expect_ident(), Some("a".to_string()));
    assert!(p.is_finished());
}
