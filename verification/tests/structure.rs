use calculator::ast::Expr;
use calculator::evaluator::eval;
use calculator::lexer::Lexer;
use calculator::shunting_yard::{parse, shunting_yard};
use calculator::tokens::{Operator, Token, TokenKind};

fn tokens_of(text: &str) -> Vec<Token> {
    Lexer::new(text).tokenize().unwrap()
}

fn reading(expr: &Expr, out: &mut Vec<TokenKind>) {
    match expr {
        Expr::Num(n) => out.push(TokenKind::Number(*n)),
        Expr::BinaryOp(op, left, right) => {
            reading(&left.value, out);
            out.push(TokenKind::Op(*op));
            reading(&right.value, out);
        }
    }
}

fn applied_before(top: Operator, incoming: Operator) -> bool {
    top != Operator::LParen
        && (top.prec() > incoming.prec()
            || (top.prec() == incoming.prec() && !top.is_right_assoc()))
}

fn graded(expr: &Expr) -> bool {
    match expr {
        Expr::Num(_) => true,
        Expr::BinaryOp(op, left, right) => {
            let left_fits = match &*left.value {
                Expr::Num(_) => true,
                Expr::BinaryOp(inner, _, _) => applied_before(*inner, *op),
            };
            let right_fits = match &*right.value {
                Expr::Num(_) => true,
                Expr::BinaryOp(inner, _, _) => !applied_before(*op, *inner),
            };
            left_fits && right_fits && graded(&left.value) && graded(&right.value)
        }
    }
}

fn spans_fit(expr: &Expr, start: usize, end: usize) -> bool {
    start < end
        && match expr {
            Expr::Num(_) => true,
            Expr::BinaryOp(_, left, right) => {
                start == left.span.start
                    && end == right.span.end
                    && left.span.end <= right.span.start
                    && spans_fit(&left.value, left.span.start, left.span.end)
                    && spans_fit(&right.value, right.span.start, right.span.end)
            }
        }
}

#[test]
fn the_tree_reads_as_the_tokens_without_parentheses() {
    for text in ["1", "1+2*3", "(1+2)*3", "2^3^2", "((1)) - (2 / (3 - 4)) ^ 5", "8/4/2*3-1+7"] {
        let tokens = tokens_of(text);
        let expected: Vec<TokenKind> = tokens
            .iter()
            .map(|token| token.kind)
            .filter(|kind| {
                !matches!(
                    kind,
                    TokenKind::Eof
                        | TokenKind::Op(Operator::LParen)
                        | TokenKind::Op(Operator::RParen)
                )
            })
            .collect();
        let mut read = Vec::new();
        reading(&shunting_yard(tokens).unwrap(), &mut read);
        assert_eq!(read, expected, "{}", text);
    }
}

#[test]
fn without_parentheses_the_tree_groups_by_precedence() {
    for text in ["1", "1+2", "1+2*3", "1*2+3", "2^3^2", "1-2-3", "1+2*3^4^5*6-7/8", "2^3*4^5+6"] {
        assert!(graded(&shunting_yard(tokens_of(text)).unwrap()), "{}", text);
    }
    assert!(!graded(&shunting_yard(tokens_of("(1+2)*3")).unwrap()));
    assert!(!graded(&shunting_yard(tokens_of("1-(2-3)")).unwrap()));
    assert!(!graded(&shunting_yard(tokens_of("(2^3)^2")).unwrap()));
}

#[test]
fn token_spans_stand_in_reading_order() {
    let text = " 12+( 3 *45 )^6 ";
    let tokens = tokens_of(text);
    let (last, rest) = tokens.split_last().unwrap();
    assert_eq!(last.kind, TokenKind::Eof);
    assert_eq!(last.span, usize::MAX..usize::MAX);
    let mut from = 0;
    for token in rest {
        assert_ne!(token.kind, TokenKind::Eof);
        assert!(from <= token.span.start);
        assert!(token.span.start < token.span.end);
        assert!(token.span.end <= text.chars().count());
        from = token.span.end;
    }
}

#[test]
fn spans_of_a_tree_fit_together() {
    for text in ["7", " 1 + 2 ", "(1+2)*3", "2 ^ (3 - 1) ^ 2", "((1)) - (2 / (3 - 4)) ^ 5"] {
        let root = parse(tokens_of(text)).unwrap();
        assert!(spans_fit(&root.value, root.span.start, root.span.end), "{}", text);
        assert!(root.span.end <= text.chars().count(), "{}", text);
    }
}

#[test]
fn every_error_is_located_in_the_text() {
    for text in [
        "1 / 0",
        "2 ^ (0 - 1)",
        "(1 + 2",
        "1 + 2)",
        "1 2",
        "2(3)",
        "* 4",
        "12 + x",
        "99999999999",
        "1 + (4 / (2 - 2)) * 3",
    ] {
        let error = eval(text).unwrap_err();
        assert!(error.span.start < error.span.end, "{}", text);
        assert!(error.span.end <= text.chars().count(), "{}", text);
    }
    for text in ["", "   ", "1 +", "(", "2 ^"] {
        assert_eq!(eval(text).unwrap_err().span, usize::MAX..usize::MAX, "{}", text);
    }
}
