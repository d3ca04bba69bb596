use vstd::prelude::*;
use crate::ast::{same_shape, Expr, Node};
use crate::errors::{ErrReason, Error};
use crate::evaluator::{value_of, value_of_source};
use crate::lexer::{
    decimal,
    eof_token,
    is_digit,
    is_space,
    lemma_number_end_bounds,
    lemma_prepend_twice,
    lex,
    number_end,
    operator_token,
    prepend,
    scan,
};
use crate::shunting_yard::{
    close,
    combine,
    drain,
    initial,
    lemma_parsed_inherits,
    parse_tokens,
    reduce_top,
    run,
    step,
    State,
};
use crate::tokens::{span, Operator, Token, TokenKind};

verus! {

/// The character of a digit below ten.
pub open spec fn digit_char(d: nat) -> char {
    ('0' as u32 + d) as char
}

/// A natural number in base ten, without leading zeros.
pub open spec fn digits_of(n: nat) -> Seq<char>
    decreases n,
{
    if n < 10 {
        seq![digit_char(n)]
    } else {
        digits_of(n / 10).push(digit_char(n % 10))
    }
}

/// The character that an operator is written with.
pub open spec fn symbol(op: Operator) -> char {
    match op {
        Operator::Add => '+',
        Operator::Sub => '-',
        Operator::Mul => '*',
        Operator::Div => '/',
        Operator::Pow => '^',
        Operator::LParen => '(',
        Operator::RParen => ')',
    }
}

/// A tree that can be written down again: its operations are operations proper, and no
/// number in it is negative, as the grammar has no sign.
pub open spec fn renderable(e: Expr) -> bool
    decreases e,
{
    match e {
        Expr::Num(n) => n >= 0,
        Expr::BinaryOp(op, left, right) => op.is_binary() && renderable(*left.value) && renderable(
            *right.value,
        ),
    }
}

/// The text of a tree with every operation in parentheses of its own.
pub open spec fn render(e: Expr) -> Seq<char>
    decreases e,
{
    match e {
        Expr::Num(n) => digits_of(n as nat),
        Expr::BinaryOp(op, left, right) => seq!['('] + render(*left.value) + seq![symbol(op)]
            + render(*right.value) + seq![')'],
    }
}

/// The value or the reason of the error, without the place of the error.
pub open spec fn outcome(r: Result<i32, Error>) -> Result<i32, ErrReason> {
    match r {
        Ok(value) => Ok(value),
        Err(e) => Err(e.reason),
    }
}

/// The tokens of `render(e)` where that text starts at offset `at`.
pub open spec fn tokens_at(e: Expr, at: int) -> Seq<Token>
    decreases e,
{
    match e {
        Expr::Num(n) => seq![
            Token { kind: TokenKind::Number(n), span: span(at, at + digits_of(n as nat).len()) },
        ],
        Expr::BinaryOp(op, left, right) => {
            let op_at = at + 1 + render(*left.value).len();
            let close_at = op_at + 1 + render(*right.value).len();
            seq![operator_token(Operator::LParen, at)] + tokens_at(*left.value, at + 1)
                + seq![operator_token(op, op_at)] + tokens_at(*right.value, op_at + 1)
                + seq![operator_token(Operator::RParen, close_at)]
        },
    }
}

/// The tree `e` with the spans that its nodes have in `render(e)` where that text starts
/// at offset `at`.
pub open spec fn placed(e: Expr, at: int) -> Node<Expr>
    decreases e,
{
    match e {
        Expr::Num(n) => Node { value: Expr::Num(n), span: span(at, at + digits_of(n as nat).len()) },
        Expr::BinaryOp(op, left, right) => combine(
            op,
            placed(*left.value, at + 1),
            placed(*right.value, at + 2 + render(*left.value).len()),
        ),
    }
}

proof fn lemma_digits_of(n: nat)
    ensures
        digits_of(n).len() >= 1,
        forall|i: int| 0 <= i < digits_of(n).len() ==> is_digit(#[trigger] digits_of(n)[i]),
        decimal(digits_of(n)) == n,
    decreases n,
{
    let s = digits_of(n);
    if n < 10 {
        assert(s.drop_last() =~= Seq::<char>::empty());
        assert(decimal(s.drop_last()) == 0);
    } else {
        lemma_digits_of(n / 10);
        assert(s.drop_last() =~= digits_of(n / 10));
    }
}

proof fn lemma_number_end_run(src: Seq<char>, from: int, to: int)
    requires
        0 <= from <= to <= src.len(),
        forall|i: int| from <= i < to ==> is_digit(#[trigger] src[i]),
        to < src.len() ==> !is_digit(src[to]),
    ensures
        number_end(src, from) == to,
    decreases to - from,
{
    if from < to {
        lemma_number_end_run(src, from + 1, to);
    }
}

proof fn lemma_part(src: Seq<char>, at: int, before: Seq<char>, part: Seq<char>, after: Seq<char>)
    requires
        0 <= at,
        at + before.len() + part.len() + after.len() <= src.len(),
        src.subrange(at, at + before.len() + part.len() + after.len()) == before + part + after,
    ensures
        src.subrange(at + before.len(), at + before.len() + part.len()) == part,
{
    let whole = src.subrange(at, at + before.len() + part.len() + after.len());
    assert forall|i: int| 0 <= i < part.len() implies src[at + before.len() + i] == part[i] by {
        assert(whole[before.len() + i] == src[at + before.len() + i]);
        assert((before + part + after)[before.len() + i] == part[i]);
    }
    assert(src.subrange(at + before.len(), at + before.len() + part.len()) =~= part);
}

proof fn lemma_symbol(op: Operator)
    requires
        op.is_binary(),
    ensures
        !is_digit(symbol(op)),
        !is_space(symbol(op)),
        Operator::of_char(symbol(op)) == Some(op),
{
}

proof fn lemma_scan_operator(src: Seq<char>, at: int, op: Operator)
    requires
        0 <= at < src.len(),
        src[at] == symbol(op),
    ensures
        scan(src, at) == prepend(seq![operator_token(op, at)], scan(src, at + 1)),
{
}

proof fn lemma_scan_render(src: Seq<char>, at: int, e: Expr)
    requires
        renderable(e),
        0 <= at,
        at + render(e).len() <= src.len(),
        src.subrange(at, at + render(e).len()) == render(e),
        at + render(e).len() < src.len() ==> !is_digit(src[at + render(e).len()]),
    ensures
        render(e).len() >= 1,
        scan(src, at) == prepend(tokens_at(e, at), scan(src, at + render(e).len())),
    decreases e,
{
    let text = render(e);
    let end = at + text.len();
    let whole = src.subrange(at, end);
    match e {
        Expr::Num(n) => {
            lemma_digits_of(n as nat);
            assert forall|i: int| at <= i < end implies is_digit(#[trigger] src[i]) by {
                assert(whole[i - at] == src[i]);
            }
            lemma_number_end_run(src, at, end);
        },
        Expr::BinaryOp(op, left, right) => {
            let l = render(*left.value);
            let r = render(*right.value);
            let first = seq!['('];
            let mid = seq![symbol(op)];
            let shut = seq![')'];
            let op_at = at + 1 + l.len();
            let close_at = op_at + 1 + r.len();
            assert(text =~= first + l + (mid + r + shut));
            assert(text =~= (first + l + mid) + r + shut);
            lemma_part(src, at, first, l, mid + r + shut);
            lemma_part(src, at, first + l + mid, r, shut);
            assert(src[at] == '(') by {
                assert(whole[0] == src[at]);
            }
            assert(src[op_at] == symbol(op)) by {
                assert(whole[op_at - at] == src[op_at]);
            }
            assert(src[close_at] == ')') by {
                assert(whole[close_at - at] == src[close_at]);
            }
            lemma_symbol(op);
            lemma_scan_operator(src, at, Operator::LParen);
            lemma_scan_render(src, at + 1, *left.value);
            lemma_scan_operator(src, op_at, op);
            lemma_scan_render(src, op_at + 1, *right.value);
            lemma_scan_operator(src, close_at, Operator::RParen);
            let a = seq![operator_token(Operator::LParen, at)];
            let b = tokens_at(*left.value, at + 1);
            let c = seq![operator_token(op, op_at)];
            let d = tokens_at(*right.value, op_at + 1);
            let f = seq![operator_token(Operator::RParen, close_at)];
            let rest = scan(src, end);
            lemma_prepend_twice(d, f, rest);
            lemma_prepend_twice(c, d + f, rest);
            lemma_prepend_twice(b, c + (d + f), rest);
            lemma_prepend_twice(a, b + (c + (d + f)), rest);
            assert(a + (b + (c + (d + f))) =~= a + b + c + d + f);
        },
    }
}

proof fn lemma_run_first(st: State, token: Token, rest: Seq<Token>)
    ensures
        run(st, seq![token] + rest) == match step(st, token) {
            Ok(next) => run(next, rest),
            Err(e) => Err(e),
        },
{
    let tokens = seq![token] + rest;
    assert(tokens.first() == token);
    assert(tokens.drop_first() =~= rest);
}

proof fn lemma_run_tokens_at(st: State, e: Expr, at: int, rest: Seq<Token>)
    requires
        renderable(e),
        !st.expect_operator,
    ensures
        run(st, tokens_at(e, at) + rest) == run(
            State { values: st.values.push(placed(e, at)), ops: st.ops, expect_operator: true },
            rest,
        ),
    decreases e,
{
    match e {
        Expr::Num(n) => {
            lemma_run_first(st, tokens_at(e, at)[0], rest);
            assert(tokens_at(e, at) =~= seq![tokens_at(e, at)[0]]);
        },
        Expr::BinaryOp(op, left, right) => {
            let op_at = at + 1 + render(*left.value).len();
            let close_at = op_at + 1 + render(*right.value).len();
            let first = operator_token(Operator::LParen, at);
            let mid = operator_token(op, op_at);
            let shut = operator_token(Operator::RParen, close_at);
            let l = tokens_at(*left.value, at + 1);
            let r = tokens_at(*right.value, op_at + 1);
            let after_r = seq![shut] + rest;
            let after_mid = r + after_r;
            let after_l = seq![mid] + after_mid;
            let after_first = l + after_l;
            assert(tokens_at(e, at) + rest =~= seq![first] + after_first);
            lemma_run_first(st, first, after_first);
            let st1 = State {
                values: st.values,
                ops: st.ops.push(Node { value: Operator::LParen, span: first.span }),
                expect_operator: false,
            };
            lemma_run_tokens_at(st1, *left.value, at + 1, after_l);
            let st2 = State {
                values: st.values.push(placed(*left.value, at + 1)),
                ops: st1.ops,
                expect_operator: true,
            };
            lemma_run_first(st2, mid, after_mid);
            assert(drain(st2, op) == st2);
            let st3 = State {
                values: st2.values,
                ops: st2.ops.push(Node { value: op, span: mid.span }),
                expect_operator: false,
            };
            lemma_run_tokens_at(st3, *right.value, op_at + 1, after_r);
            let st4 = State {
                values: st3.values.push(placed(*right.value, op_at + 1)),
                ops: st3.ops,
                expect_operator: true,
            };
            lemma_run_first(st4, shut, rest);
            let st5 = reduce_top(st4);
            assert(st5.ops =~= st1.ops);
            assert(st5.values =~= st.values.push(placed(e, at)));
            assert(st5.ops.drop_last() =~= st.ops);
            assert(close(st5, shut.span) == Ok::<State, Error>(
                State { values: st5.values, ops: st.ops, expect_operator: true },
            ));
            assert(close(st4, shut.span) == close(st5, shut.span));
        },
    }
}

proof fn lemma_placed_shape(e: Expr, at: int)
    ensures
        same_shape(placed(e, at).value, e),
    decreases e,
{
    match e {
        Expr::Num(n) => {},
        Expr::BinaryOp(op, left, right) => {
            lemma_placed_shape(*left.value, at + 1);
            lemma_placed_shape(*right.value, at + 2 + render(*left.value).len());
        },
    }
}

/// Trees that differ in their spans only have the same value, or fail for the same
/// reason.
pub proof fn lemma_same_shape_same_outcome(a: Expr, b: Expr)
    requires
        same_shape(a, b),
    ensures
        outcome(value_of(a)) == outcome(value_of(b)),
    decreases a,
{
    match a {
        Expr::Num(n) => {},
        Expr::BinaryOp(op, left, right) => {
            match b {
                Expr::Num(_) => {},
                Expr::BinaryOp(other_op, other_left, other_right) => {
                    lemma_same_shape_same_outcome(*left.value, *other_left.value);
                    lemma_same_shape_same_outcome(*right.value, *other_right.value);
                },
            }
        },
    }
}

/// The text of a tree, lexed and parsed, is that tree again but for the spans, and so
/// has the value of that tree, or fails for the same reason.
pub proof fn lemma_render_round_trip(e: Expr)
    requires
        renderable(e),
    ensures
        lex(render(e)) matches Ok(tokens) && parse_tokens(tokens) matches Ok(root) && same_shape(
            root.value,
            e,
        ),
        outcome(value_of_source(render(e))) == outcome(value_of(e)),
{
    let text = render(e);
    assert(text.subrange(0, text.len() as int) =~= text);
    lemma_scan_render(text, 0, e);
    let last = seq![eof_token()];
    let tokens = tokens_at(e, 0) + last;
    assert(lex(text) == Ok::<Seq<Token>, Error>(tokens));
    lemma_run_tokens_at(initial(), e, 0, last);
    let end = State {
        values: Seq::<Node<Expr>>::empty().push(placed(e, 0)),
        ops: Seq::empty(),
        expect_operator: true,
    };
    assert(initial().values.push(placed(e, 0)) =~= end.values);
    lemma_run_first(end, eof_token(), Seq::empty());
    assert(last =~= seq![eof_token()] + Seq::<Token>::empty());
    assert(run(end, last) == Ok::<State, Error>(end));
    assert(parse_tokens(tokens) == Ok::<Node<Expr>, Error>(placed(e, 0)));
    lemma_placed_shape(e, 0);
    lemma_same_shape_same_outcome(placed(e, 0).value, e);
}

proof fn lemma_scan_numbers(src: Seq<char>, pos: int)
    requires
        0 <= pos,
    ensures
        scan(src, pos) matches Ok(tokens) ==> forall|i: int|
            0 <= i < tokens.len() ==> ((#[trigger] tokens[i]).kind matches TokenKind::Number(n)
                ==> n >= 0),
    decreases src.len() - pos,
{
    if let Ok(tokens) = scan(src, pos) {
        if pos < src.len() {
            lemma_number_end_bounds(src, pos);
            let next = if is_digit(src[pos]) {
                number_end(src, pos)
            } else {
                pos + 1
            };
            lemma_scan_numbers(src, next);
        }
    }
}

/// That a tree can be written down again, as a property.
pub open spec fn renderable_trees() -> spec_fn(Expr) -> bool {
    |e: Expr| renderable(e)
}

/// The tree of a valid text can be written down again, and its text is a valid text
/// for the same tree but for the spans: it has the same value, or fails for the same
/// reason.
pub proof fn lemma_text_round_trip(source: Seq<char>)
    requires
        lex(source) matches Ok(tokens) && parse_tokens(tokens) is Ok,
    ensures
        ({
            let tree = parse_tokens(lex(source)->Ok_0)->Ok_0.value;
            &&& renderable(tree)
            &&& lex(render(tree)) matches Ok(tokens) && parse_tokens(tokens) matches Ok(root)
                && same_shape(root.value, tree)
            &&& outcome(value_of_source(render(tree))) == outcome(value_of_source(source))
        }),
{
    let tokens = lex(source)->Ok_0;
    lemma_scan_numbers(source, 0);
    lemma_parsed_inherits(tokens, renderable_trees());
    lemma_render_round_trip(parse_tokens(tokens)->Ok_0.value);
}

fn digit_text(d: u32) -> (text: &'static str)
    requires
        d < 10,
    ensures
        text@ == seq![digit_char(d as nat)],
{
    proof {
        reveal_strlit("0");
        reveal_strlit("1");
        reveal_strlit("2");
        reveal_strlit("3");
        reveal_strlit("4");
        reveal_strlit("5");
        reveal_strlit("6");
        reveal_strlit("7");
        reveal_strlit("8");
        reveal_strlit("9");
    }
    let text = match d {
        0 => "0",
        1 => "1",
        2 => "2",
        3 => "3",
        4 => "4",
        5 => "5",
        6 => "6",
        7 => "7",
        8 => "8",
        _ => "9",
    };
    assert(text@ =~= seq![digit_char(d as nat)]);
    text
}

fn symbol_text(op: Operator) -> (text: &'static str)
    ensures
        text@ == seq![symbol(op)],
{
    proof {
        reveal_strlit("+");
        reveal_strlit("-");
        reveal_strlit("*");
        reveal_strlit("/");
        reveal_strlit("^");
        reveal_strlit("(");
        reveal_strlit(")");
    }
    let text = match op {
        Operator::Add => "+",
        Operator::Sub => "-",
        Operator::Mul => "*",
        Operator::Div => "/",
        Operator::Pow => "^",
        Operator::LParen => "(",
        Operator::RParen => ")",
    };
    assert(text@ =~= seq![symbol(op)]);
    text
}

fn write_number(n: u32, out: &mut String)
    ensures
        final(out)@ == old(out)@ + digits_of(n as nat),
    decreases n,
{
    if n >= 10 {
        write_number(n / 10, out);
    }
    out.append(digit_text(n % 10));
    assert(out@ =~= old(out)@ + digits_of(n as nat));
}

fn write_expr(expr: &Expr, out: &mut String) -> (done: bool)
    ensures
        done == renderable(*expr),
        done ==> final(out)@ == old(out)@ + render(*expr),
    decreases *expr,
{
    match expr {
        Expr::Num(n) => {
            if *n < 0 {
                return false;
            }
            write_number(*n as u32, out);
            true
        },
        Expr::BinaryOp(op, left, right) => {
            if *op == Operator::LParen || *op == Operator::RParen {
                return false;
            }
            out.append(symbol_text(Operator::LParen));
            if !write_expr(&left.value, out) {
                return false;
            }
            out.append(symbol_text(*op));
            if !write_expr(&right.value, out) {
                return false;
            }
            out.append(symbol_text(Operator::RParen));
            assert(out@ =~= old(out)@ + render(*expr));
            true
        },
    }
}

/// Writes a tree down with every operation in parentheses of its own. A tree with a
/// negative number, or with a parenthesis for an operation, has no text.
pub fn to_source(expr: &Expr) -> (text: Option<String>)
    ensures
        match text {
            Some(s) => renderable(*expr) && s@ == render(*expr),
            None => !renderable(*expr),
        },
{
    let mut out = String::new();
    if write_expr(expr, &mut out) {
        assert(out@ =~= render(*expr));
        Some(out)
    } else {
        None
    }
}

} // verus!
