use vstd::prelude::*;
use crate::tokens::{Operator, Span};

verus! {

/// A value together with the span of source text it was derived from.
#[derive(Debug, PartialEq, Eq)]
pub struct Node<T> {
    pub value: T,
    pub span: Span,
}

/// An expression tree: a literal, or a binary operation on two sub-trees.
#[derive(Debug, PartialEq, Eq)]
pub enum Expr {
    Num(i32),
    BinaryOp(Operator, Node<Box<Expr>>, Node<Box<Expr>>),
}

impl Expr {
    /// Every operation in the tree is one of `+ - * / ^`: a parenthesis groups, and
    /// operates on nothing.
    pub open spec fn well_formed(self) -> bool
        decreases self,
    {
        match self {
            Expr::Num(_) => true,
            Expr::BinaryOp(op, left, right) => op.is_binary() && (*left.value).well_formed() && (
            *right.value).well_formed(),
        }
    }
}

/// Two trees are the same but for the spans of their nodes.
pub open spec fn same_shape(a: Expr, b: Expr) -> bool
    decreases a,
{
    match a {
        Expr::Num(n) => b == Expr::Num(n),
        Expr::BinaryOp(op, left, right) => match b {
            Expr::Num(_) => false,
            Expr::BinaryOp(other_op, other_left, other_right) => op == other_op && same_shape(
                *left.value,
                *other_left.value,
            ) && same_shape(*right.value, *other_right.value),
        },
    }
}

impl<T> Node<T> {
    /// Moves the value to the heap and keeps the span.
    pub fn into(self) -> (boxed: Node<Box<T>>)
        ensures
            *boxed.value == self.value,
            boxed.span == self.span,
    {
        Node { value: Box::new(self.value), span: self.span }
    }
}

} // verus!
