use calculator::ast::{Expr, Node};
use calculator::tokens::{Operator, Token, TokenKind};

#[test]
fn precedence_table() {
    assert_eq!(Operator::Add.prec(), 5);
    assert_eq!(Operator::Sub.prec(), 5);
    assert_eq!(Operator::Mul.prec(), 10);
    assert_eq!(Operator::Div.prec(), 10);
    assert_eq!(Operator::Pow.prec(), 15);
    assert_eq!(Operator::LParen.prec(), 0);
    assert_eq!(Operator::RParen.prec(), 0);
}

#[test]
fn only_power_groups_to_the_right() {
    assert!(Operator::Pow.is_right_assoc());
    assert!(!Operator::Add.is_right_assoc());
    assert!(!Operator::Sub.is_right_assoc());
    assert!(!Operator::Mul.is_right_assoc());
    assert!(!Operator::Div.is_right_assoc());
    assert!(!Operator::LParen.is_right_assoc());
    assert!(!Operator::RParen.is_right_assoc());
}

#[test]
fn operator_of_each_character() {
    assert_eq!(Operator::from('+'), Operator::Add);
    assert_eq!(Operator::from('-'), Operator::Sub);
    assert_eq!(Operator::from('*'), Operator::Mul);
    assert_eq!(Operator::from('/'), Operator::Div);
    assert_eq!(Operator::from('^'), Operator::Pow);
    assert_eq!(Operator::from('('), Operator::LParen);
    assert_eq!(Operator::from(')'), Operator::RParen);
}

#[test]
fn token_kinds_compare_by_content() {
    assert_eq!(TokenKind::Number(3), TokenKind::Number(3));
    assert_ne!(TokenKind::Number(3), TokenKind::Number(4));
    assert_ne!(TokenKind::Op(Operator::Add), TokenKind::Op(Operator::Sub));
    assert_ne!(TokenKind::Eof, TokenKind::Number(0));
    assert_eq!(
        Token { kind: TokenKind::Eof, span: 1..2 },
        Token { kind: TokenKind::Eof, span: 1..2 }
    );
}

#[test]
fn boxing_a_node_keeps_value_and_span() {
    let node = Node { value: Expr::Num(7), span: 3..4 };
    let boxed: Node<Box<Expr>> = node.into();
    assert_eq!(*boxed.value, Expr::Num(7));
    assert_eq!(boxed.span, 3..4);
}
