use std::ops::Range;
use vstd::arithmetic::div_mod::lemma_mul_mod_noop;
use vstd::arithmetic::power::{
    lemma_pow0,
    lemma_pow_adds,
    lemma_pow1,
    lemma_pow_mod_noop,
    lemma_pow_multiplies,
    lemma_square_is_pow2,
    pow,
};
use vstd::prelude::*;
use crate::ast::Expr;
use crate::errors::{ErrReason, Error};
use crate::extent::lemma_spans_are_located;
use crate::lexer::{lex, located, Lexer};
use crate::shunting_yard::{parse_tokens, shunting_yard};
use crate::tokens::{eof_span, Operator, Span};

verus! {

/// The 32-bit two's complement value of an integer: the one `i32` that differs from it
/// by a multiple of 2^32. Sums, differences, products, quotients and powers that leave
/// the range of `i32` wrap around to it.
pub open spec fn wrap(x: int) -> i32 {
    let low = x % 0x1_0000_0000;
    if low > i32::MAX {
        (low - 0x1_0000_0000) as i32
    } else {
        low as i32
    }
}

/// The quotient of `a` by `b` rounded towards zero, for `b` other than zero.
pub open spec fn quotient(a: int, b: int) -> int {
    if a >= 0 && b > 0 {
        a / b
    } else if a >= 0 {
        -(a / (-b))
    } else if b > 0 {
        -((-a) / b)
    } else {
        (-a) / (-b)
    }
}

/// What an operation yields on the values of its operands, which stand at the two spans.
/// Division by zero is an error of the whole operation, a negative exponent one of the
/// exponent.
pub open spec fn apply(op: Operator, left: i32, right: i32, left_span: Span, right_span: Span) -> Result<
    i32,
    Error,
> {
    match op {
        Operator::Add => Ok(wrap(left + right)),
        Operator::Sub => Ok(wrap(left - right)),
        Operator::Mul => Ok(wrap(left * right)),
        Operator::Div => if right == 0 {
            Err(
                Error {
                    span: Range { start: left_span.start, end: right_span.end },
                    reason: ErrReason::DivByZero,
                },
            )
        } else {
            Ok(wrap(quotient(left as int, right as int)))
        },
        Operator::Pow => if right < 0 {
            Err(Error { span: right_span, reason: ErrReason::PowerByNegative(right) })
        } else {
            Ok(wrap(pow(left as int, right as nat)))
        },
        Operator::LParen | Operator::RParen => arbitrary(),
    }
}

/// The value of an expression, or the first error met when the left operand of every
/// operation is evaluated before the right one.
pub open spec fn value_of(expr: Expr) -> Result<i32, Error>
    decreases expr,
{
    match expr {
        Expr::Num(n) => Ok(n),
        Expr::BinaryOp(op, left, right) => match value_of(*left.value) {
            Err(e) => Err(e),
            Ok(l) => match value_of(*right.value) {
                Err(e) => Err(e),
                Ok(r) => apply(op, l, r, left.span, right.span),
            },
        },
    }
}

/// The value of the expression that a text holds, or the first error of lexing, parsing
/// or evaluation, in that order.
pub open spec fn value_of_source(source: Seq<char>) -> Result<i32, Error> {
    match lex(source) {
        Err(e) => Err(e),
        Ok(tokens) => match parse_tokens(tokens) {
            Err(e) => Err(e),
            Ok(root) => value_of(root.value),
        },
    }
}

/// An `i32` is the wrapped value of every integer it differs from by a multiple of 2^32.
proof fn lemma_wrap_unique(r: i32, x: int)
    requires
        r as int % 0x1_0000_0000 == x % 0x1_0000_0000,
    ensures
        wrap(x) == r,
{
}

/// Products of factors that agree modulo 2^32 agree modulo 2^32.
proof fn lemma_congruent_products(a: int, b: int, c: int, d: int)
    requires
        a % 0x1_0000_0000 == c % 0x1_0000_0000,
        b % 0x1_0000_0000 == d % 0x1_0000_0000,
    ensures
        (a * b) % 0x1_0000_0000 == (c * d) % 0x1_0000_0000,
{
    lemma_mul_mod_noop(a, b, 0x1_0000_0000);
    lemma_mul_mod_noop(c, d, 0x1_0000_0000);
}

/// The quotient rounded towards zero; the one quotient out of range wraps around.
fn wrapping_div(a: i32, b: i32) -> (q: i32)
    requires
        b != 0,
    ensures
        q == wrap(quotient(a as int, b as int)),
{
    match a.checked_div(b) {
        Some(q) => q,
        None => i32::MIN,
    }
}

/// A power in terms of the power of the square with half the exponent.
proof fn lemma_pow_halves(b: int, e: nat)
    ensures
        e % 2 == 0 ==> pow(b, e) == pow(b * b, e / 2),
        e % 2 == 1 ==> pow(b, e) == b * pow(b * b, e / 2),
{
    let half = e / 2;
    lemma_square_is_pow2(b);
    lemma_pow_multiplies(b, 2, half);
    if e % 2 == 1 {
        assert(e == 1 + 2 * half);
        lemma_pow_adds(b, 1, 2 * half);
        lemma_pow1(b);
    } else {
        assert(e == 2 * half);
    }
}

/// Powers of bases that agree modulo 2^32 agree modulo 2^32.
proof fn lemma_congruent_powers(a: int, c: int, e: nat)
    requires
        a % 0x1_0000_0000 == c % 0x1_0000_0000,
    ensures
        pow(a, e) % 0x1_0000_0000 == pow(c, e) % 0x1_0000_0000,
{
    lemma_pow_mod_noop(a, e, 0x1_0000_0000);
    lemma_pow_mod_noop(c, e, 0x1_0000_0000);
}

/// Raises `base` to the power `exp` by squaring, wrapping around at every product.
fn wrapping_pow(base: i32, exp: u32) -> (p: i32)
    ensures
        p == wrap(pow(base as int, exp as nat)),
{
    let mut result: i32 = 1;
    let mut square: i32 = base;
    let mut left: u32 = exp;
    proof {
        lemma_congruent_products(1, pow(base as int, exp as nat), 1, pow(base as int, exp as nat));
    }
    while left > 0
        invariant
            (result * pow(square as int, left as nat)) % 0x1_0000_0000 == pow(
                base as int,
                exp as nat,
            ) % 0x1_0000_0000,
        decreases left,
    {
        let ghost rest = pow((square * square) as int, (left / 2) as nat);
        let ghost wrapped_rest = pow(square.wrapping_mul(square) as int, (left / 2) as nat);
        proof {
            lemma_pow_halves(square as int, left as nat);
            lemma_congruent_powers(
                square.wrapping_mul(square) as int,
                (square * square) as int,
                (left / 2) as nat,
            );
        }
        if left % 2 == 1 {
            proof {
                lemma_congruent_products(
                    result.wrapping_mul(square) as int,
                    wrapped_rest,
                    result * square,
                    rest,
                );
                assert((result * square) * rest == result * (square * rest)) by (nonlinear_arith);
            }
            result = result.wrapping_mul(square);
        } else {
            proof {
                lemma_congruent_products(result as int, wrapped_rest, result as int, rest);
            }
        }
        square = square.wrapping_mul(square);
        left = left / 2;
    }
    proof {
        lemma_pow0(square as int);
        lemma_wrap_unique(result, pow(base as int, exp as nat));
    }
    result
}

/// Evaluates an expression tree. Sums, differences, products, quotients and powers wrap
/// around in 32 bits. The result depends on the tree alone: evaluating it again gives
/// the same value or the same error.
pub fn eval_ast(expr: &Expr) -> (r: Result<i32, Error>)
    requires
        expr.well_formed(),
    ensures
        r == value_of(*expr),
    decreases *expr,
{
    match expr {
        Expr::Num(n) => Ok(*n),
        Expr::BinaryOp(op, left, right) => {
            let l = eval_ast(&left.value)?;
            let r = eval_ast(&right.value)?;
            match op {
                Operator::Add => Ok(l.wrapping_add(r)),
                Operator::Sub => Ok(l.wrapping_sub(r)),
                Operator::Mul => Ok(l.wrapping_mul(r)),
                Operator::Div => {
                    if r != 0 {
                        Ok(wrapping_div(l, r))
                    } else {
                        Err(
                            Error {
                                reason: ErrReason::DivByZero,
                                span: left.span.start..right.span.end,
                            },
                        )
                    }
                },
                Operator::Pow => {
                    if r < 0 {
                        Err(
                            Error {
                                reason: ErrReason::PowerByNegative(r),
                                span: right.span.start..right.span.end,
                            },
                        )
                    } else {
                        Ok(wrapping_pow(l, r as u32))
                    }
                },
                _ => unreached(),
            }
        },
    }
}

/// Evaluates the expression that a text holds.
pub fn eval(s: &str) -> (r: Result<i32, Error>)
    ensures
        r == value_of_source(s@),
        r matches Err(e) ==> e.span == eof_span() || located(e.span, s@.len() as int),
{
    let lexer = Lexer::new(s);
    proof {
        lemma_spans_are_located(s@);
    }
    let tokens = lexer.tokenize()?;
    let expr = shunting_yard(tokens)?;
    eval_ast(&expr)
}

} // verus!
