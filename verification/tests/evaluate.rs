use calculator::ast::{Expr, Node};
use calculator::errors::{ErrReason, Error};
use calculator::evaluator::{eval, eval_ast};
use calculator::tokens::{Operator, TokenKind};

fn leaf(value: i32) -> Node<Box<Expr>> {
    Node { value: Box::new(Expr::Num(value)), span: 0..0 }
}

fn binary(op: Operator, left: i32, right: i32) -> Expr {
    Expr::BinaryOp(op, leaf(left), leaf(right))
}

#[test]
fn power_groups_to_the_right() {
    assert_eq!(eval("2^3^2"), Ok(512));
}

#[test]
fn multiplication_binds_tighter_than_addition() {
    assert_eq!(eval("1 + 2 * 3"), Ok(7));
    assert_eq!(eval("(1 + 2) * 3"), Ok(9));
}

#[test]
fn subtraction_groups_to_the_left() {
    assert_eq!(eval("10 - 2 - 3"), Ok(5));
}

#[test]
fn division_by_zero_covers_the_whole_operation() {
    assert_eq!(eval("1 / 0"), Err(Error { span: 0..5, reason: ErrReason::DivByZero }));
    assert_eq!(eval("7 + (12 / (3 - 3)) * 2"), Err(Error { span: 5..16, reason: ErrReason::DivByZero }));
}

#[test]
fn leading_minus_is_a_syntax_error() {
    assert_eq!(
        eval("2 ^ -1"),
        Err(Error {
            span: 4..5,
            reason: ErrReason::ExpectedNumber { found: TokenKind::Op(Operator::Sub) },
        })
    );
}

#[test]
fn negative_exponent_from_an_expression() {
    assert_eq!(
        eval("2 ^ (0 - 1)"),
        Err(Error { span: 5..10, reason: ErrReason::PowerByNegative(-1) })
    );
    assert_eq!(
        eval("2 ^ (3 - 10)"),
        Err(Error { span: 5..11, reason: ErrReason::PowerByNegative(-7) })
    );
}

#[test]
fn unclosed_parenthesis() {
    assert_eq!(eval("(1 + 2"), Err(Error { span: 0..1, reason: ErrReason::UnclosedParen }));
}

#[test]
fn stray_closing_parenthesis() {
    assert_eq!(
        eval("1 + 2)"),
        Err(Error {
            span: 5..6,
            reason: ErrReason::ExpectedNumber { found: TokenKind::Op(Operator::RParen) },
        })
    );
}

#[test]
fn lexing_errors_come_first() {
    assert_eq!(eval("1 / 0 + x"), Err(Error { span: 8..9, reason: ErrReason::UnexpectedChar('x') }));
    assert_eq!(
        eval(") 4294967296"),
        Err(Error { span: 2..12, reason: ErrReason::NumOverflow { max_size: "2_147_483_647" } })
    );
}

#[test]
fn parsing_errors_come_before_evaluation() {
    assert_eq!(
        eval("1 / 0 +"),
        Err(Error {
            span: usize::MAX..usize::MAX,
            reason: ErrReason::ExpectedNumber { found: TokenKind::Eof },
        })
    );
}

#[test]
fn left_operand_fails_first() {
    assert_eq!(
        eval("(1 / 0) + (2 ^ (0 - 1))"),
        Err(Error { span: 1..6, reason: ErrReason::DivByZero })
    );
    assert_eq!(
        eval("(2 ^ (0 - 1)) + (1 / 0)"),
        Err(Error { span: 6..11, reason: ErrReason::PowerByNegative(-1) })
    );
}

#[test]
fn plain_arithmetic() {
    assert_eq!(eval("42"), Ok(42));
    assert_eq!(eval("2 + 3"), Ok(5));
    assert_eq!(eval("2 - 3"), Ok(-1));
    assert_eq!(eval("6 * 7"), Ok(42));
    assert_eq!(eval("2 ^ 10"), Ok(1024));
    assert_eq!(eval("2 * 3 ^ 2"), Ok(18));
    assert_eq!(eval("(2 * 3) ^ 2"), Ok(36));
    assert_eq!(eval("100 / 7 / 2"), Ok(7));
    assert_eq!(eval("  ( ( 1 + 2 ) * ( 3 + 4 ) ) "), Ok(21));
}

#[test]
fn division_rounds_towards_zero() {
    assert_eq!(eval("7 / 2"), Ok(3));
    assert_eq!(eval("(0 - 7) / 2"), Ok(-3));
    assert_eq!(eval("7 / (0 - 2)"), Ok(-3));
    assert_eq!(eval("(0 - 7) / (0 - 2)"), Ok(3));
    assert_eq!(eval("0 / 5"), Ok(0));
}

#[test]
fn sums_and_products_wrap_around() {
    assert_eq!(eval("2147483647 + 1"), Ok(-2147483648));
    assert_eq!(eval("0 - 2147483647 - 2"), Ok(2147483647));
    assert_eq!(eval("65536 * 65536"), Ok(0));
    assert_eq!(eval("2147483647 * 2147483647"), Ok(1));
    assert_eq!(eval("2147483647 * 2"), Ok(-2));
}

#[test]
fn quotient_out_of_range_wraps_around() {
    assert_eq!(eval("(0 - 2147483647 - 1) / (0 - 1)"), Ok(-2147483648));
}

#[test]
fn powers_wrap_around() {
    assert_eq!(eval("2 ^ 31"), Ok(-2147483648));
    assert_eq!(eval("2 ^ 32"), Ok(0));
    assert_eq!(eval("3 ^ 21"), Ok(3i32.wrapping_pow(21)));
    assert_eq!(eval("3 ^ 21"), Ok(1870418611));
    assert_eq!(eval("3 ^ 2147483647"), Ok(3i32.wrapping_pow(2147483647)));
    assert_eq!(eval("(0 - 3) ^ 3"), Ok(-27));
}

#[test]
fn powers_of_zero_and_one() {
    assert_eq!(eval("0 ^ 0"), Ok(1));
    assert_eq!(eval("5 ^ 0"), Ok(1));
    assert_eq!(eval("0 ^ 5"), Ok(0));
    assert_eq!(eval("5 ^ 1"), Ok(5));
    assert_eq!(eval("1 ^ 2147483647"), Ok(1));
    assert_eq!(eval("(0 - 1) ^ 2147483647"), Ok(-1));
}

#[test]
fn a_tree_evaluates_the_same_every_time() {
    let tree = Expr::BinaryOp(
        Operator::Sub,
        Node { value: Box::new(binary(Operator::Mul, 6, 7)), span: 0..5 },
        Node { value: Box::new(binary(Operator::Pow, 2, 5)), span: 8..13 },
    );
    let first = eval_ast(&tree);
    let second = eval_ast(&tree);
    assert_eq!(first, Ok(10));
    assert_eq!(first, second);
    let failing = Expr::BinaryOp(
        Operator::Div,
        Node { value: Box::new(Expr::Num(1)), span: 3..4 },
        Node { value: Box::new(Expr::Num(0)), span: 7..8 },
    );
    assert_eq!(eval_ast(&failing), Err(Error { span: 3..8, reason: ErrReason::DivByZero }));
    assert_eq!(eval_ast(&failing), eval_ast(&failing));
}

#[test]
fn trees_built_by_hand() {
    assert_eq!(eval_ast(&Expr::Num(-5)), Ok(-5));
    assert_eq!(eval_ast(&binary(Operator::Add, -5, 3)), Ok(-2));
    assert_eq!(eval_ast(&binary(Operator::Div, i32::MIN, -1)), Ok(i32::MIN));
    assert_eq!(eval_ast(&binary(Operator::Div, -9, 4)), Ok(-2));
    assert_eq!(eval_ast(&binary(Operator::Pow, -2, 31)), Ok(i32::MIN));
    let exponent = Node { value: Box::new(Expr::Num(-3)), span: 4..6 };
    assert_eq!(
        eval_ast(&Expr::BinaryOp(Operator::Pow, leaf(2), exponent)),
        Err(Error { span: 4..6, reason: ErrReason::PowerByNegative(-3) })
    );
}
