use calculator::ast::{Expr, Node};
use calculator::errors::{ErrReason, Error};
use calculator::lexer::Lexer;
use calculator::shunting_yard::{parse, shunting_yard};
use calculator::tokens::{Operator, Token, TokenKind};

fn tokens_of(text: &str) -> Vec<Token> {
    Lexer::new(text).tokenize().unwrap()
}

fn num(value: i32, start: usize, end: usize) -> Node<Expr> {
    Node { value: Expr::Num(value), span: start..end }
}

fn op(operator: Operator, left: Node<Expr>, right: Node<Expr>) -> Node<Expr> {
    let span = left.span.start..right.span.end;
    Node { value: Expr::BinaryOp(operator, left.into(), right.into()), span }
}

fn expected_number(found: TokenKind, start: usize, end: usize) -> Error {
    Error { span: start..end, reason: ErrReason::ExpectedNumber { found } }
}

#[test]
fn single_number() {
    assert_eq!(parse(tokens_of("42")), Ok(num(42, 0, 2)));
    assert_eq!(shunting_yard(tokens_of("42")), Ok(Expr::Num(42)));
}

#[test]
fn tighter_operator_goes_deeper() {
    assert_eq!(
        parse(tokens_of("1 + 2 * 3")),
        Ok(op(Operator::Add, num(1, 0, 1), op(Operator::Mul, num(2, 4, 5), num(3, 8, 9))))
    );
    assert_eq!(
        parse(tokens_of("1 * 2 + 3")),
        Ok(op(Operator::Add, op(Operator::Mul, num(1, 0, 1), num(2, 4, 5)), num(3, 8, 9)))
    );
}

#[test]
fn equal_operators_group_to_the_left() {
    assert_eq!(
        parse(tokens_of("10-2-3")),
        Ok(op(Operator::Sub, op(Operator::Sub, num(10, 0, 2), num(2, 3, 4)), num(3, 5, 6)))
    );
    assert_eq!(
        parse(tokens_of("8/4*2")),
        Ok(op(Operator::Mul, op(Operator::Div, num(8, 0, 1), num(4, 2, 3)), num(2, 4, 5)))
    );
}

#[test]
fn powers_group_to_the_right() {
    assert_eq!(
        parse(tokens_of("2^3^4")),
        Ok(op(Operator::Pow, num(2, 0, 1), op(Operator::Pow, num(3, 2, 3), num(4, 4, 5))))
    );
}

#[test]
fn parentheses_override_precedence() {
    assert_eq!(
        parse(tokens_of("(1 + 2) * 3")),
        Ok(op(Operator::Mul, op(Operator::Add, num(1, 1, 2), num(2, 5, 6)), num(3, 10, 11)))
    );
    assert_eq!(
        parse(tokens_of("2 * (3 + 4) * 5")),
        Ok(op(
            Operator::Mul,
            op(Operator::Mul, num(2, 0, 1), op(Operator::Add, num(3, 5, 6), num(4, 9, 10))),
            num(5, 14, 15)
        ))
    );
}

#[test]
fn parentheses_leave_no_node() {
    assert_eq!(parse(tokens_of("((7))")), Ok(num(7, 2, 3)));
    assert_eq!(
        parse(tokens_of("(1+2)")),
        Ok(op(Operator::Add, num(1, 1, 2), num(2, 3, 4)))
    );
}

#[test]
fn the_tree_is_returned_without_its_span() {
    assert_eq!(
        shunting_yard(tokens_of("1+2")),
        Ok(Expr::BinaryOp(
            Operator::Add,
            Node { value: Box::new(Expr::Num(1)), span: 0..1 },
            Node { value: Box::new(Expr::Num(2)), span: 2..3 }
        ))
    );
}

#[test]
fn root_spans_the_whole_text() {
    for text in ["7", "1+2", "12 * (3 + 4) - 5", "2^3^2", "1 - (2) / 33"] {
        let root = parse(tokens_of(text)).unwrap();
        assert_eq!(root.span, 0..text.chars().count(), "{}", text);
    }
}

#[test]
fn root_spans_from_first_to_last_number() {
    assert_eq!(parse(tokens_of("  (1 + 22)  ")).unwrap().span, 3..9);
    assert_eq!(parse(tokens_of("((5))")).unwrap().span, 2..3);
}

#[test]
fn two_numbers_in_a_row() {
    assert_eq!(
        parse(tokens_of("1 2")),
        Err(Error { span: 2..3, reason: ErrReason::ExpectedOperator { found: TokenKind::Number(2) } })
    );
    assert_eq!(
        parse(tokens_of("(1) 2")),
        Err(Error { span: 4..5, reason: ErrReason::ExpectedOperator { found: TokenKind::Number(2) } })
    );
}

#[test]
fn operator_where_a_number_belongs() {
    assert_eq!(parse(tokens_of("-1")), Err(expected_number(TokenKind::Op(Operator::Sub), 0, 1)));
    assert_eq!(parse(tokens_of("1 + * 2")), Err(expected_number(TokenKind::Op(Operator::Mul), 4, 5)));
    assert_eq!(parse(tokens_of("(+")), Err(expected_number(TokenKind::Op(Operator::Add), 1, 2)));
    assert_eq!(parse(tokens_of("()")), Err(expected_number(TokenKind::Op(Operator::RParen), 1, 2)));
    assert_eq!(parse(tokens_of(")")), Err(expected_number(TokenKind::Op(Operator::RParen), 0, 1)));
}

#[test]
fn open_parenthesis_after_a_value() {
    assert_eq!(parse(tokens_of("2(3)")), Err(expected_number(TokenKind::Op(Operator::LParen), 1, 2)));
    assert_eq!(
        parse(tokens_of("(1)(2)")),
        Err(expected_number(TokenKind::Op(Operator::LParen), 3, 4))
    );
}

#[test]
fn input_that_ends_too_early() {
    assert_eq!(parse(tokens_of("")), Err(expected_number(TokenKind::Eof, usize::MAX, usize::MAX)));
    assert_eq!(parse(tokens_of("1 +")), Err(expected_number(TokenKind::Eof, usize::MAX, usize::MAX)));
    assert_eq!(parse(tokens_of("(")), Err(expected_number(TokenKind::Eof, usize::MAX, usize::MAX)));
    assert_eq!(parse(Vec::new()), Err(expected_number(TokenKind::Eof, usize::MAX, usize::MAX)));
}

#[test]
fn parenthesis_that_is_never_closed() {
    assert_eq!(
        parse(tokens_of("(1 + 2")),
        Err(Error { span: 0..1, reason: ErrReason::UnclosedParen })
    );
    assert_eq!(
        parse(tokens_of("1 * ((2 + 3) - 4")),
        Err(Error { span: 4..5, reason: ErrReason::UnclosedParen })
    );
    assert_eq!(
        parse(tokens_of("((1)")),
        Err(Error { span: 0..1, reason: ErrReason::UnclosedParen })
    );
}

#[test]
fn parenthesis_that_was_never_opened() {
    assert_eq!(parse(tokens_of("1 + 2)")), Err(expected_number(TokenKind::Op(Operator::RParen), 5, 6)));
    assert_eq!(parse(tokens_of("(1))")), Err(expected_number(TokenKind::Op(Operator::RParen), 3, 4)));
}

#[test]
fn first_error_in_reading_order() {
    assert_eq!(
        parse(tokens_of("(1 2")),
        Err(Error { span: 3..4, reason: ErrReason::ExpectedOperator { found: TokenKind::Number(2) } })
    );
    assert_eq!(parse(tokens_of("1) + (")), Err(expected_number(TokenKind::Op(Operator::RParen), 1, 2)));
}

#[test]
fn end_tokens_do_nothing_wherever_they_stand() {
    let tokens = vec![
        Token { kind: TokenKind::Eof, span: 9..9 },
        Token { kind: TokenKind::Number(1), span: 0..1 },
        Token { kind: TokenKind::Eof, span: 9..9 },
        Token { kind: TokenKind::Op(Operator::Add), span: 1..2 },
        Token { kind: TokenKind::Number(-2), span: 2..3 },
    ];
    assert_eq!(parse(tokens), Ok(op(Operator::Add, num(1, 0, 1), num(-2, 2, 3))));
}
