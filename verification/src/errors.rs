use vstd::prelude::*;
use crate::tokens::{Span, TokenKind};

verus! {

/// A failure of lexing, parsing or evaluation, with the place it refers to.
#[derive(Debug, PartialEq, Eq)]
pub struct Error {
    pub span: Span,
    pub reason: ErrReason,
}

/// Why an input was rejected.
#[derive(Debug, PartialEq, Eq)]
pub enum ErrReason {
    /// A literal is larger than the largest `i32`, which `max_size` spells out.
    NumOverflow { max_size: &'static str },
    /// A literal is smaller than the smallest `i32`, which `min_size` spells out. The
    /// grammar has no sign, so no text gives this.
    NumUnderflow { min_size: &'static str },
    /// A character that belongs to no token.
    UnexpectedChar(char),
    /// A number follows a value.
    ExpectedOperator { found: TokenKind },
    /// An operator, a parenthesis or the end of input stands where a value has to, or
    /// an open parenthesis follows a value, or a closing one closes nothing.
    ExpectedNumber { found: TokenKind },
    /// An open parenthesis is never closed.
    UnclosedParen,
    /// The right operand of a division is zero.
    DivByZero,
    /// The right operand of a power is this negative number.
    PowerByNegative(i32),
}

} // verus!
