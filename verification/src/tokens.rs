use std::ops::Range;
use vstd::prelude::*;

verus! {

/// Half-open range `[start, end)` of character offsets into the source text.
pub type Span = Range<usize>;

/// The operators of the grammar, parentheses included.
#[derive(Debug, PartialEq, Eq, Structural, Clone, Copy)]
pub enum Operator {
    Add,
    Sub,
    Mul,
    Div,
    Pow,
    LParen,
    RParen,
}

/// What a token is.
#[derive(Debug, PartialEq, Eq, Structural, Clone, Copy)]
pub enum TokenKind {
    Number(i32),
    Op(Operator),
    Eof,
}

/// A lexical unit with the place it was read from.
#[derive(Debug, PartialEq, Eq)]
pub struct Token {
    pub kind: TokenKind,
    pub span: Span,
}

impl Operator {
    /// How tightly the operator binds: `+ -` loosest, then `* /`, then `^`. A
    /// parenthesis has no precedence of its own, and is given 0.
    pub open spec fn spec_prec(&self) -> u8 {
        match self {
            Operator::Add | Operator::Sub => 5,
            Operator::Mul | Operator::Div => 10,
            Operator::Pow => 15,
            Operator::LParen | Operator::RParen => 0,
        }
    }

    /// How tightly the operator binds.
    #[verifier::when_used_as_spec(spec_prec)]
    pub fn prec(&self) -> (p: u8)
        ensures
            p == self.spec_prec(),
    {
        match self {
            Operator::Add | Operator::Sub => 5,
            Operator::Mul | Operator::Div => 10,
            Operator::Pow => 15,
            Operator::LParen | Operator::RParen => 0,
        }
    }

    /// Whether a chain of this operator groups to the right: only `^` does.
    pub open spec fn spec_is_right_assoc(&self) -> bool {
        *self == Operator::Pow
    }

    /// Whether a chain of this operator groups to the right.
    #[verifier::when_used_as_spec(spec_is_right_assoc)]
    pub fn is_right_assoc(&self) -> (r: bool)
        ensures
            r == self.spec_is_right_assoc(),
    {
        *self == Operator::Pow
    }

    /// Whether this is one of `+ - * / ^`.
    pub open spec fn is_binary(&self) -> bool {
        *self != Operator::LParen && *self != Operator::RParen
    }

    /// The operator that a character stands for, if it stands for one.
    pub open spec fn of_char(c: char) -> Option<Operator> {
        if c == '+' {
            Some(Operator::Add)
        } else if c == '-' {
            Some(Operator::Sub)
        } else if c == '*' {
            Some(Operator::Mul)
        } else if c == '/' {
            Some(Operator::Div)
        } else if c == '^' {
            Some(Operator::Pow)
        } else if c == '(' {
            Some(Operator::LParen)
        } else if c == ')' {
            Some(Operator::RParen)
        } else {
            None
        }
    }

    /// The operator that an operator character stands for.
    pub fn from(c: char) -> (op: Operator)
        requires
            Operator::of_char(c) is Some,
        ensures
            Operator::of_char(c) == Some(op),
    {
        match c {
            '+' => Operator::Add,
            '-' => Operator::Sub,
            '*' => Operator::Mul,
            '/' => Operator::Div,
            '^' => Operator::Pow,
            '(' => Operator::LParen,
            _ => Operator::RParen,
        }
    }
}

/// The span `[start, end)`.
pub open spec fn span(start: int, end: int) -> Span {
    Range { start: start as usize, end: end as usize }
}

/// The span of the token that ends every token sequence: it has no place in the source.
pub open spec fn eof_span() -> Span {
    Range { start: usize::MAX, end: usize::MAX }
}

} // verus!
