use calculator::ast::{Expr, Node};
use calculator::evaluator::{eval, eval_ast};
use calculator::lexer::Lexer;
use calculator::render::to_source;
use calculator::shunting_yard::shunting_yard;
use calculator::tokens::Operator;

fn tree_of(text: &str) -> Expr {
    shunting_yard(Lexer::new(text).tokenize().unwrap()).unwrap()
}

fn leaf(value: i32) -> Node<Box<Expr>> {
    Node { value: Box::new(Expr::Num(value)), span: 0..0 }
}

fn without_spans(expr: &Expr) -> Expr {
    match expr {
        Expr::Num(n) => Expr::Num(*n),
        Expr::BinaryOp(op, left, right) => Expr::BinaryOp(
            *op,
            Node { value: Box::new(without_spans(&left.value)), span: 0..0 },
            Node { value: Box::new(without_spans(&right.value)), span: 0..0 },
        ),
    }
}

#[test]
fn every_operation_gets_its_parentheses() {
    assert_eq!(to_source(&tree_of("7")), Some(String::from("7")));
    assert_eq!(to_source(&tree_of("1 + 2 * 3")), Some(String::from("(1+(2*3))")));
    assert_eq!(to_source(&tree_of("(1 + 2) * 3")), Some(String::from("((1+2)*3)")));
    assert_eq!(to_source(&tree_of("2^3^2")), Some(String::from("(2^(3^2))")));
    assert_eq!(to_source(&tree_of("10 - 2 - 3")), Some(String::from("((10-2)-3)")));
    assert_eq!(to_source(&tree_of("8 / 4 / 2")), Some(String::from("((8/4)/2)")));
}

#[test]
fn numbers_are_written_in_full() {
    assert_eq!(to_source(&Expr::Num(0)), Some(String::from("0")));
    assert_eq!(to_source(&Expr::Num(10)), Some(String::from("10")));
    assert_eq!(to_source(&Expr::Num(1234567890)), Some(String::from("1234567890")));
    assert_eq!(to_source(&Expr::Num(2147483647)), Some(String::from("2147483647")));
    assert_eq!(to_source(&tree_of("0007")), Some(String::from("7")));
}

#[test]
fn trees_outside_the_grammar_have_no_text() {
    assert_eq!(to_source(&Expr::Num(-1)), None);
    assert_eq!(to_source(&Expr::BinaryOp(Operator::Add, leaf(1), leaf(-2))), None);
    assert_eq!(to_source(&Expr::BinaryOp(Operator::LParen, leaf(1), leaf(2))), None);
    assert_eq!(to_source(&Expr::BinaryOp(Operator::RParen, leaf(1), leaf(2))), None);
}

#[test]
fn parsing_the_text_of_a_tree_gives_the_tree_back() {
    for text in [
        "5",
        "1 + 2 * 3",
        "(1 + 2) * 3",
        "2^3^2",
        "10 - 2 - 3",
        "((4))",
        "1 / 0",
        "2 ^ (0 - 1)",
        "(2 + 3) * (7 - 4) / (1 + 1) ^ 2",
        "2147483647 + 1",
    ] {
        let tree = tree_of(text);
        let written = to_source(&tree).unwrap();
        let again = tree_of(&written);
        assert_eq!(without_spans(&again), without_spans(&tree), "{}", text);
        assert_eq!(to_source(&again), Some(written.clone()), "{}", text);
        match (eval(&written), eval(text)) {
            (Ok(a), Ok(b)) => assert_eq!(a, b, "{}", text),
            (Err(a), Err(b)) => assert_eq!(a.reason, b.reason, "{}", text),
            (a, b) => panic!("{}: {:?} and {:?}", text, a, b),
        }
        assert_eq!(eval_ast(&again).ok(), eval_ast(&tree).ok(), "{}", text);
    }
}
