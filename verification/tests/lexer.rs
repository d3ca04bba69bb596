use calculator::errors::{ErrReason, Error};
use calculator::lexer::{is_ascii_digit, is_whitespace, Lexer};
use calculator::tokens::{Operator, Token, TokenKind};

fn number(value: i32, start: usize, end: usize) -> Token {
    Token { kind: TokenKind::Number(value), span: start..end }
}

fn operator(op: Operator, at: usize) -> Token {
    Token { kind: TokenKind::Op(op), span: at..at + 1 }
}

fn eof() -> Token {
    Token { kind: TokenKind::Eof, span: usize::MAX..usize::MAX }
}

#[test]
fn empty_text_is_the_end_token_alone() {
    assert_eq!(Lexer::new("").tokenize(), Ok(vec![eof()]));
    assert_eq!(Lexer::new("  \t\n").tokenize(), Ok(vec![eof()]));
}

#[test]
fn every_operator_character() {
    assert_eq!(
        Lexer::new("+-*/^()").tokenize(),
        Ok(vec![
            operator(Operator::Add, 0),
            operator(Operator::Sub, 1),
            operator(Operator::Mul, 2),
            operator(Operator::Div, 3),
            operator(Operator::Pow, 4),
            operator(Operator::LParen, 5),
            operator(Operator::RParen, 6),
            eof(),
        ])
    );
}

#[test]
fn spans_are_those_of_the_text() {
    assert_eq!(
        Lexer::new("12 + (345*6)").tokenize(),
        Ok(vec![
            number(12, 0, 2),
            operator(Operator::Add, 3),
            operator(Operator::LParen, 5),
            number(345, 6, 9),
            operator(Operator::Mul, 9),
            number(6, 10, 11),
            operator(Operator::RParen, 11),
            eof(),
        ])
    );
}

#[test]
fn adjacent_numbers_need_a_separator() {
    assert_eq!(Lexer::new("12 34").tokenize(), Ok(vec![number(12, 0, 2), number(34, 3, 5), eof()]));
    assert_eq!(Lexer::new("1234").tokenize(), Ok(vec![number(1234, 0, 4), eof()]));
}

#[test]
fn largest_literal() {
    assert_eq!(Lexer::new("2147483647").tokenize(), Ok(vec![number(2147483647, 0, 10), eof()]));
}

#[test]
fn literal_past_the_largest_overflows() {
    assert_eq!(
        Lexer::new("2147483648").tokenize(),
        Err(Error { span: 0..10, reason: ErrReason::NumOverflow { max_size: "2_147_483_647" } })
    );
    assert_eq!(
        Lexer::new("1 + 99999999999999999999999999 + 2").tokenize(),
        Err(Error { span: 4..30, reason: ErrReason::NumOverflow { max_size: "2_147_483_647" } })
    );
}

#[test]
fn leading_zeros_count_for_nothing() {
    assert_eq!(
        Lexer::new("000000000000000000000042").tokenize(),
        Ok(vec![number(42, 0, 24), eof()])
    );
    assert_eq!(Lexer::new("0").tokenize(), Ok(vec![number(0, 0, 1), eof()]));
}

#[test]
fn unexpected_character_is_located() {
    assert_eq!(
        Lexer::new("1 + a").tokenize(),
        Err(Error { span: 4..5, reason: ErrReason::UnexpectedChar('a') })
    );
    assert_eq!(
        Lexer::new("2.5").tokenize(),
        Err(Error { span: 1..2, reason: ErrReason::UnexpectedChar('.') })
    );
}

#[test]
fn first_error_wins() {
    assert_eq!(
        Lexer::new("? 99999999999").tokenize(),
        Err(Error { span: 0..1, reason: ErrReason::UnexpectedChar('?') })
    );
    assert_eq!(
        Lexer::new("99999999999 ?").tokenize(),
        Err(Error { span: 0..11, reason: ErrReason::NumOverflow { max_size: "2_147_483_647" } })
    );
}

#[test]
fn offsets_count_characters_not_bytes() {
    assert_eq!(
        Lexer::new("1\u{a0}+\u{3000}2").tokenize(),
        Ok(vec![number(1, 0, 1), operator(Operator::Add, 2), number(2, 4, 5), eof()])
    );
    assert_eq!(
        Lexer::new("\u{2003}\u{e9}").tokenize(),
        Err(Error { span: 1..2, reason: ErrReason::UnexpectedChar('\u{e9}') })
    );
}

#[test]
fn only_ascii_digits_are_digits() {
    assert!(is_ascii_digit('0'));
    assert!(is_ascii_digit('9'));
    assert!(!is_ascii_digit('/'));
    assert!(!is_ascii_digit(':'));
    assert!(!is_ascii_digit('\u{663}'));
    assert_eq!(
        Lexer::new("\u{663}").tokenize(),
        Err(Error { span: 0..1, reason: ErrReason::UnexpectedChar('\u{663}') })
    );
}

#[test]
fn white_space_is_what_the_standard_library_calls_so() {
    let mut code: u32 = 0;
    while code <= 0x10FFFF {
        if let Some(c) = char::from_u32(code) {
            assert_eq!(is_whitespace(c), c.is_whitespace(), "U+{:04X}", code);
            assert_eq!(is_ascii_digit(c), c.is_ascii_digit(), "U+{:04X}", code);
        }
        code += 1;
    }
}
