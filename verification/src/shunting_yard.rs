use std::ops::Range;
use vstd::prelude::*;
use crate::ast::{Expr, Node};
use crate::errors::{ErrReason, Error};
use crate::tokens::{eof_span, Operator, Span, Token, TokenKind};

verus! {

/// What the parser holds between two tokens: the operands and the operators that wait to
/// be combined, the most recent last, and whether the next token has to be an operator.
pub struct State {
    pub values: Seq<Node<Expr>>,
    pub ops: Seq<Node<Operator>>,
    pub expect_operator: bool,
}

/// The state before the first token.
pub open spec fn initial() -> State {
    State { values: Seq::empty(), ops: Seq::empty(), expect_operator: false }
}

/// The operation `op` on two operands; its span reaches from the start of the left one
/// to the end of the right one.
pub open spec fn combine(op: Operator, left: Node<Expr>, right: Node<Expr>) -> Node<Expr> {
    Node {
        value: Expr::BinaryOp(
            op,
            Node { value: Box::new(left.value), span: left.span },
            Node { value: Box::new(right.value), span: right.span },
        ),
        span: Range { start: left.span.start, end: right.span.end },
    }
}

/// The operand stack after its two topmost operands have been combined by `op`.
pub open spec fn reduced(values: Seq<Node<Expr>>, op: Operator) -> Seq<Node<Expr>> {
    let left = values[values.len() - 2];
    let right = values[values.len() - 1];
    values.subrange(0, values.len() - 2).push(combine(op, left, right))
}

/// The state after the topmost operator has been taken off and applied.
pub open spec fn reduce_top(st: State) -> State {
    State {
        values: reduced(st.values, st.ops.last().value),
        ops: st.ops.drop_last(),
        expect_operator: st.expect_operator,
    }
}

/// Whether the operator `top` of the stack is applied before `incoming` is pushed:
/// it binds tighter, or as tight and groups to the left.
pub open spec fn applied_before(top: Operator, incoming: Operator) -> bool {
    top != Operator::LParen && (top.prec() > incoming.prec() || (top.prec() == incoming.prec()
        && !top.is_right_assoc()))
}

/// Applies the operators on top of the stack that are applied before `incoming`, down
/// to the first one that is not, or to an open parenthesis.
pub open spec fn drain(st: State, incoming: Operator) -> State
    decreases st.ops.len(),
{
    if st.ops.len() > 0 && applied_before(st.ops.last().value, incoming) {
        drain(reduce_top(st), incoming)
    } else {
        st
    }
}

/// Applies the operators down to the nearest open parenthesis and takes that parenthesis
/// off. Without one, the closing parenthesis at `at` is refused.
pub open spec fn close(st: State, at: Span) -> Result<State, Error>
    decreases st.ops.len(),
{
    if st.ops.len() == 0 {
        Err(
            Error {
                span: at,
                reason: ErrReason::ExpectedNumber { found: TokenKind::Op(Operator::RParen) },
            },
        )
    } else if st.ops.last().value == Operator::LParen {
        Ok(State { values: st.values, ops: st.ops.drop_last(), expect_operator: st.expect_operator })
    } else {
        close(reduce_top(st), at)
    }
}

/// The state after one more token, or the error that the token is.
pub open spec fn step(st: State, token: Token) -> Result<State, Error> {
    match token.kind {
        TokenKind::Number(n) => if st.expect_operator {
            Err(Error { span: token.span, reason: ErrReason::ExpectedOperator { found: token.kind } })
        } else {
            Ok(
                State {
                    values: st.values.push(Node { value: Expr::Num(n), span: token.span }),
                    ops: st.ops,
                    expect_operator: true,
                },
            )
        },
        TokenKind::Op(op) => if op == Operator::LParen {
            if st.expect_operator {
                Err(Error { span: token.span, reason: ErrReason::ExpectedNumber { found: token.kind } })
            } else {
                Ok(
                    State {
                        values: st.values,
                        ops: st.ops.push(Node { value: op, span: token.span }),
                        expect_operator: false,
                    },
                )
            }
        } else if !st.expect_operator {
            Err(Error { span: token.span, reason: ErrReason::ExpectedNumber { found: token.kind } })
        } else if op == Operator::RParen {
            close(st, token.span)
        } else {
            let drained = drain(st, op);
            Ok(
                State {
                    values: drained.values,
                    ops: drained.ops.push(Node { value: op, span: token.span }),
                    expect_operator: false,
                },
            )
        },
        TokenKind::Eof => Ok(st),
    }
}

/// The state after all of `tokens`, read from the left, or the first error among them.
pub open spec fn run(st: State, tokens: Seq<Token>) -> Result<State, Error>
    decreases tokens.len(),
{
    if tokens.len() == 0 {
        Ok(st)
    } else {
        match step(st, tokens.first()) {
            Ok(next) => run(next, tokens.drop_first()),
            Err(e) => Err(e),
        }
    }
}

/// Applies every operator that is left, the most recent first. An open parenthesis among
/// them was never closed.
pub open spec fn unwind(st: State) -> Result<Node<Expr>, Error>
    decreases st.ops.len(),
{
    if st.ops.len() == 0 {
        Ok(st.values.first())
    } else if st.ops.last().value == Operator::LParen {
        Err(Error { span: st.ops.last().span, reason: ErrReason::UnclosedParen })
    } else {
        unwind(reduce_top(st))
    }
}

/// What the input as a whole is, once all tokens have been read.
pub open spec fn finish(st: State) -> Result<Node<Expr>, Error> {
    if !st.expect_operator {
        Err(Error { span: eof_span(), reason: ErrReason::ExpectedNumber { found: TokenKind::Eof } })
    } else {
        unwind(st)
    }
}

/// The tree that a token sequence denotes, or the first error in it.
pub open spec fn parse_tokens(tokens: Seq<Token>) -> Result<Node<Expr>, Error> {
    match run(initial(), tokens) {
        Ok(st) => finish(st),
        Err(e) => Err(e),
    }
}

/// How many entries of an operator stack are operators proper, not open parentheses.
pub open spec fn pending(ops: Seq<Node<Operator>>) -> nat
    decreases ops.len(),
{
    if ops.len() == 0 {
        0
    } else if ops.last().value == Operator::LParen {
        pending(ops.drop_last())
    } else {
        pending(ops.drop_last()) + 1
    }
}

/// Every waiting operator has its left operand on the stack, and its right one too once
/// an operator may follow; no closing parenthesis is ever kept.
pub open spec fn balanced(st: State) -> bool {
    &&& st.values.len() == pending(st.ops) + if st.expect_operator { 1nat } else { 0nat }
    &&& forall|i: int| 0 <= i < st.ops.len() ==> (#[trigger] st.ops[i]).value != Operator::RParen
}

/// The parser's stacks and flag as one state.
pub open spec fn state_of(
    values: Seq<Node<Expr>>,
    ops: Seq<Node<Operator>>,
    expect_operator: bool,
) -> State {
    State { values, ops, expect_operator }
}

/// A property that every operation has whose operands have it.
pub open spec fn inherited(p: spec_fn(Expr) -> bool) -> bool {
    forall|op: Operator, left: Node<Expr>, right: Node<Expr>|
        op.is_binary() && p(left.value) && p(right.value) ==> p(
            (#[trigger] combine(op, left, right)).value,
        )
}

/// Every number among the tokens, taken as an expression, has the property.
pub open spec fn numbers_have(tokens: Seq<Token>, p: spec_fn(Expr) -> bool) -> bool {
    forall|i: int|
        0 <= i < tokens.len() ==> ((#[trigger] tokens[i]).kind matches TokenKind::Number(n) ==> p(
            Expr::Num(n),
        ))
}

/// The stacks are balanced, and every operand has the property.
pub open spec fn sound(st: State, p: spec_fn(Expr) -> bool) -> bool {
    &&& balanced(st)
    &&& forall|i: int| 0 <= i < st.values.len() ==> p((#[trigger] st.values[i]).value)
}

/// That a tree holds operations proper only, as a property.
pub open spec fn well_formed_trees() -> spec_fn(Expr) -> bool {
    |e: Expr| e.well_formed()
}

/// Balanced stacks with an operator on top hold its two operands, and stay balanced
/// when it is applied.
pub(crate) proof fn lemma_reduce_top_balanced(st: State)
    requires
        balanced(st),
        st.expect_operator,
        st.ops.len() > 0,
        st.ops.last().value != Operator::LParen,
    ensures
        st.values.len() >= 2,
        balanced(reduce_top(st)),
{
    let rest = reduce_top(st);
    assert forall|i: int| 0 <= i < rest.ops.len() implies (#[trigger] rest.ops[i]).value
        != Operator::RParen by {
        assert(rest.ops[i] == st.ops[i]);
    }
}

/// Applying the topmost operator keeps the stacks sound.
pub(crate) proof fn lemma_reduce_top_sound(st: State, p: spec_fn(Expr) -> bool)
    requires
        sound(st, p),
        inherited(p),
        st.expect_operator,
        st.ops.len() > 0,
        st.ops.last().value != Operator::LParen,
    ensures
        st.values.len() >= 2,
        sound(reduce_top(st), p),
{
    lemma_reduce_top_balanced(st);
    let rest = reduce_top(st);
    let left = st.values[st.values.len() - 2];
    let right = st.values[st.values.len() - 1];
    assert(st.ops.last().value.is_binary());
    assert(p(combine(st.ops.last().value, left, right).value));
    assert forall|i: int| 0 <= i < rest.values.len() implies p((#[trigger] rest.values[i]).value) by {
        if i < rest.values.len() - 1 {
            assert(rest.values[i] == st.values[i]);
        }
    }
}

/// Draining keeps the stacks sound.
pub(crate) proof fn lemma_drain_sound(st: State, incoming: Operator, p: spec_fn(Expr) -> bool)
    requires
        sound(st, p),
        inherited(p),
        st.expect_operator,
    ensures
        sound(drain(st, incoming), p),
        drain(st, incoming).expect_operator,
    decreases st.ops.len(),
{
    if st.ops.len() > 0 && applied_before(st.ops.last().value, incoming) {
        lemma_reduce_top_sound(st, p);
        lemma_drain_sound(reduce_top(st), incoming, p);
    }
}

/// Closing a parenthesis keeps the stacks sound.
pub(crate) proof fn lemma_close_sound(st: State, at: Span, p: spec_fn(Expr) -> bool)
    requires
        sound(st, p),
        inherited(p),
        st.expect_operator,
    ensures
        close(st, at) matches Ok(next) ==> sound(next, p) && next.expect_operator,
    decreases st.ops.len(),
{
    if st.ops.len() == 0 {
    } else if st.ops.last().value == Operator::LParen {
        lemma_pop_paren_balanced(st);
    } else {
        lemma_reduce_top_sound(st, p);
        lemma_close_sound(reduce_top(st), at, p);
    }
}

/// A token that is accepted keeps the stacks sound.
pub(crate) proof fn lemma_step_sound(st: State, token: Token, p: spec_fn(Expr) -> bool)
    requires
        sound(st, p),
        inherited(p),
        token.kind matches TokenKind::Number(n) ==> p(Expr::Num(n)),
    ensures
        step(st, token) matches Ok(next) ==> sound(next, p),
{
    match token.kind {
        TokenKind::Number(n) => {
            if !st.expect_operator {
                let next = step(st, token)->Ok_0;
                assert forall|i: int| 0 <= i < next.values.len() implies p(
                    (#[trigger] next.values[i]).value,
                ) by {
                    if i < st.values.len() {
                        assert(next.values[i] == st.values[i]);
                    }
                }
            }
        },
        TokenKind::Op(op) => {
            if op == Operator::LParen {
                lemma_push_balanced(st, Node { value: op, span: token.span });
            } else if st.expect_operator {
                if op == Operator::RParen {
                    lemma_close_sound(st, token.span, p);
                } else {
                    lemma_drain_sound(st, op, p);
                    lemma_push_balanced(drain(st, op), Node { value: op, span: token.span });
                }
            }
        },
        TokenKind::Eof => {},
    }
}

/// Tokens that are accepted keep the stacks sound.
pub(crate) proof fn lemma_run_sound(st: State, tokens: Seq<Token>, p: spec_fn(Expr) -> bool)
    requires
        sound(st, p),
        inherited(p),
        numbers_have(tokens, p),
    ensures
        run(st, tokens) matches Ok(end) ==> sound(end, p),
    decreases tokens.len(),
{
    if tokens.len() > 0 {
        assert(tokens.first() == tokens[0]);
        lemma_step_sound(st, tokens.first(), p);
        if let Ok(next) = step(st, tokens.first()) {
            let rest = tokens.drop_first();
            assert forall|i: int| 0 <= i < rest.len() implies ((
            #[trigger] rest[i]).kind matches TokenKind::Number(n) ==> p(Expr::Num(n))) by {
                assert(rest[i] == tokens[i + 1]);
            }
            lemma_run_sound(next, rest, p);
        }
    }
}

/// What is left of sound stacks at the end of input is a tree with the property.
pub(crate) proof fn lemma_unwind_sound(st: State, p: spec_fn(Expr) -> bool)
    requires
        sound(st, p),
        inherited(p),
        st.expect_operator,
    ensures
        unwind(st) matches Ok(root) ==> p(root.value),
    decreases st.ops.len(),
{
    if st.ops.len() == 0 {
        assert(st.values.first() == st.values[0]);
    } else if st.ops.last().value != Operator::LParen {
        lemma_reduce_top_sound(st, p);
        lemma_unwind_sound(reduce_top(st), p);
    }
}

/// What every number among the tokens has, and every operation inherits from its
/// operands, the tree that comes out of parsing has.
pub proof fn lemma_parsed_inherits(tokens: Seq<Token>, p: spec_fn(Expr) -> bool)
    requires
        inherited(p),
        numbers_have(tokens, p),
    ensures
        parse_tokens(tokens) matches Ok(root) ==> p(root.value),
{
    lemma_run_sound(initial(), tokens, p);
    if let Ok(end) = run(initial(), tokens) {
        if end.expect_operator {
            lemma_unwind_sound(end, p);
        }
    }
}

/// A tree that comes out of parsing holds operations proper only, whatever the tokens.
pub proof fn lemma_parsed_is_well_formed(tokens: Seq<Token>)
    ensures
        parse_tokens(tokens) matches Ok(root) ==> root.value.well_formed(),
{
    lemma_parsed_inherits(tokens, well_formed_trees());
}

/// What one more waiting operator or open parenthesis changes in the count.
pub(crate) proof fn lemma_push_balanced(st: State, entry: Node<Operator>)
    requires
        balanced(st),
        entry.value != Operator::RParen,
    ensures
        pending(st.ops.push(entry)) == pending(st.ops) + if entry.value == Operator::LParen {
            0nat
        } else {
            1nat
        },
        forall|i: int|
            0 <= i < st.ops.push(entry).len() ==> (#[trigger] st.ops.push(entry)[i]).value
                != Operator::RParen,
{
    assert(st.ops.push(entry).drop_last() =~= st.ops);
}

/// Taking an open parenthesis off keeps the stacks balanced.
pub(crate) proof fn lemma_pop_paren_balanced(st: State)
    requires
        balanced(st),
        st.ops.len() > 0,
        st.ops.last().value == Operator::LParen,
    ensures
        balanced(State { values: st.values, ops: st.ops.drop_last(), expect_operator: st.expect_operator }),
{
    let rest = st.ops.drop_last();
    assert forall|i: int| 0 <= i < rest.len() implies (#[trigger] rest[i]).value
        != Operator::RParen by {
        assert(rest[i] == st.ops[i]);
    }
}

/// A span of its own with the same bounds.
fn copy_span(span: &Span) -> (copy: Span)
    ensures
        copy == *span,
{
    span.start..span.end
}

/// Replaces the two topmost operands by the operation `op` on them.
fn reduce(values: &mut Vec<Node<Expr>>, op: Operator)
    requires
        old(values)@.len() >= 2,
    ensures
        final(values)@ == reduced(old(values)@, op),
{
    let right = values.pop().unwrap();
    let left = values.pop().unwrap();
    let span = left.span.start..right.span.end;
    let expr = Expr::BinaryOp(op, left.into(), right.into());
    values.push(Node { value: expr, span });
    assert(values@ =~= reduced(old(values)@, op));
}

/// Whether the operator on top of the stack is applied before `incoming` is pushed.
fn is_applied_before(top: Operator, incoming: Operator) -> (r: bool)
    ensures
        r == applied_before(top, incoming),
{
    top != Operator::LParen && (top.prec() > incoming.prec() || (top.prec() >= incoming.prec()
        && !top.is_right_assoc()))
}

/// Parses a token sequence into one tree whose nodes carry the spans of their text:
/// operands and operators wait on two stacks, and an operator is applied as soon as one
/// arrives that does not bind tighter. The first token that cannot follow what came
/// before it is the error; so is an open parenthesis that is never closed.
#[verifier::loop_isolation(false)]
pub fn parse(tokens: Vec<Token>) -> (r: Result<Node<Expr>, Error>)
    ensures
        r == parse_tokens(tokens@),
        r matches Ok(root) ==> root.value.well_formed(),
{
    proof {
        lemma_parsed_is_well_formed(tokens@);
    }
    let mut value_stack: Vec<Node<Expr>> = Vec::new();
    let mut op_stack: Vec<Node<Operator>> = Vec::new();
    let mut expect_operator = false;
    let mut i: usize = 0;
    assert(tokens@.skip(0) =~= tokens@);
    while i < tokens.len()
        invariant
            i <= tokens.len(),
            balanced(state_of(value_stack@, op_stack@, expect_operator)),
            run(initial(), tokens@) == run(
                state_of(value_stack@, op_stack@, expect_operator),
                tokens@.skip(i as int),
            ),
        decreases tokens.len() - i,
    {
        let ghost before = state_of(value_stack@, op_stack@, expect_operator);
        proof {
            assert(tokens@.skip(i as int).first() == tokens@[i as int]);
            assert(tokens@.skip(i as int).drop_first() =~= tokens@.skip(i + 1));
        }
        let kind = tokens[i].kind;
        let span = copy_span(&tokens[i].span);
        match kind {
            TokenKind::Number(n) => {
                if expect_operator {
                    return Err(Error { reason: ErrReason::ExpectedOperator { found: kind }, span });
                }
                value_stack.push(Node { span, value: Expr::Num(n) });
                expect_operator = true;
            },
            TokenKind::Op(op) => {
                if op == Operator::LParen {
                    if expect_operator {
                        return Err(Error { reason: ErrReason::ExpectedNumber { found: kind }, span });
                    }
                    op_stack.push(Node { value: op, span });
                    proof {
                        lemma_push_balanced(before, op_stack@.last());
                    }
                } else {
                    if !expect_operator {
                        return Err(Error { reason: ErrReason::ExpectedNumber { found: kind }, span });
                    }
                    if op == Operator::RParen {
                        while op_stack.len() > 0 && op_stack[op_stack.len() - 1].value
                            != Operator::LParen
                            invariant
                                balanced(state_of(value_stack@, op_stack@, expect_operator)),
                                close(before, span) == close(
                                    state_of(value_stack@, op_stack@, expect_operator),
                                    span,
                                ),
                            decreases op_stack@.len(),
                        {
                            proof {
                                lemma_reduce_top_balanced(
                                    state_of(value_stack@, op_stack@, expect_operator),
                                );
                            }
                            let top = op_stack.pop().unwrap();
                            reduce(&mut value_stack, top.value);
                        }
                        if op_stack.len() == 0 {
                            return Err(Error { reason: ErrReason::ExpectedNumber { found: kind }, span });
                        }
                        proof {
                            lemma_pop_paren_balanced(
                                state_of(value_stack@, op_stack@, expect_operator),
                            );
                        }
                        op_stack.pop();
                    } else {
                        while op_stack.len() > 0 && is_applied_before(
                            op_stack[op_stack.len() - 1].value,
                            op,
                        )
                            invariant
                                balanced(state_of(value_stack@, op_stack@, expect_operator)),
                                drain(before, op) == drain(
                                    state_of(value_stack@, op_stack@, expect_operator),
                                    op,
                                ),
                            decreases op_stack@.len(),
                        {
                            proof {
                                lemma_reduce_top_balanced(
                                    state_of(value_stack@, op_stack@, expect_operator),
                                );
                            }
                            let top = op_stack.pop().unwrap();
                            reduce(&mut value_stack, top.value);
                        }
                        let ghost drained = state_of(value_stack@, op_stack@, expect_operator);
                        op_stack.push(Node { value: op, span });
                        expect_operator = false;
                        proof {
                            lemma_push_balanced(drained, op_stack@.last());
                        }
                    }
                }
            },
            TokenKind::Eof => {},
        }
        i += 1;
    }
    let ghost end = state_of(value_stack@, op_stack@, expect_operator);
    assert(tokens@.skip(i as int).len() == 0);
    if !expect_operator {
        return Err(
            Error {
                reason: ErrReason::ExpectedNumber { found: TokenKind::Eof },
                span: usize::MAX..usize::MAX,
            },
        );
    }
    while op_stack.len() > 0
        invariant
            balanced(state_of(value_stack@, op_stack@, expect_operator)),
            unwind(end) == unwind(state_of(value_stack@, op_stack@, expect_operator)),
        decreases op_stack@.len(),
    {
        let ghost current = state_of(value_stack@, op_stack@, expect_operator);
        let top = op_stack.pop().unwrap();
        if top.value == Operator::LParen {
            return Err(Error { reason: ErrReason::UnclosedParen, span: top.span });
        }
        proof {
            lemma_reduce_top_balanced(current);
        }
        reduce(&mut value_stack, top.value);
    }
    Ok(value_stack.pop().unwrap())
}

/// Parses a token sequence into the expression it denotes, without the span of the
/// whole.
pub fn shunting_yard(tokens: Vec<Token>) -> (r: Result<Expr, Error>)
    ensures
        r == match parse_tokens(tokens@) {
            Ok(root) => Ok::<Expr, Error>(root.value),
            Err(e) => Err(e),
        },
        r matches Ok(expr) ==> expr.well_formed(),
{
    match parse(tokens) {
        Ok(root) => Ok(root.value),
        Err(e) => Err(e),
    }
}

} // verus!
