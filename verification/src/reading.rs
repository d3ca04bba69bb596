use vstd::prelude::*;
use crate::ast::Expr;
use crate::shunting_yard::{
    applied_before,
    close,
    drain,
    initial,
    lemma_drain_sound,
    lemma_reduce_top_sound,
    lemma_run_sound,
    lemma_step_sound,
    parse_tokens,
    reduce_top,
    run,
    sound,
    step,
    unwind,
    well_formed_trees,
    State,
};
use crate::tokens::{Operator, Span, Token, TokenKind};

verus! {

/// The numbers and operators of a tree as they are read from left to right.
pub open spec fn spelled(e: Expr) -> Seq<TokenKind>
    decreases e,
{
    match e {
        Expr::Num(n) => seq![TokenKind::Number(n)],
        Expr::BinaryOp(op, left, right) => spelled(*left.value) + seq![TokenKind::Op(op)] + spelled(
            *right.value,
        ),
    }
}

/// What a token adds to the reading: itself, if it is a number or an operator proper.
pub open spec fn content_of(token: Token) -> Seq<TokenKind> {
    match token.kind {
        TokenKind::Number(_) => seq![token.kind],
        TokenKind::Op(op) => if op.is_binary() {
            seq![token.kind]
        } else {
            Seq::empty()
        },
        TokenKind::Eof => Seq::empty(),
    }
}

/// The numbers and operators proper among the tokens, in their order.
pub open spec fn content(tokens: Seq<Token>) -> Seq<TokenKind>
    decreases tokens.len(),
{
    if tokens.len() == 0 {
        Seq::empty()
    } else {
        content_of(tokens.first()) + content(tokens.drop_first())
    }
}

/// The numbers and operators that a parser state holds, in the order in which they
/// were read: the operands and the operators proper take turns.
pub open spec fn held(st: State) -> Seq<TokenKind>
    decreases st.values.len() + st.ops.len(),
{
    if st.expect_operator {
        if st.values.len() == 0 {
            Seq::empty()
        } else {
            held(State { values: st.values.drop_last(), ops: st.ops, expect_operator: false })
                + spelled(st.values.last().value)
        }
    } else if st.ops.len() == 0 {
        Seq::empty()
    } else if st.ops.last().value == Operator::LParen {
        held(State { values: st.values, ops: st.ops.drop_last(), expect_operator: false })
    } else {
        held(State { values: st.values, ops: st.ops.drop_last(), expect_operator: true }) + seq![
            TokenKind::Op(st.ops.last().value),
        ]
    }
}

proof fn lemma_reduce_top_held(st: State)
    requires
        st.expect_operator,
        st.values.len() >= 2,
        st.ops.len() > 0,
        st.ops.last().value != Operator::LParen,
    ensures
        held(reduce_top(st)) == held(st),
{
    let n = st.values.len() as int;
    let left = st.values[n - 2];
    let right = st.values[n - 1];
    let op = st.ops.last().value;
    let below = State {
        values: st.values.subrange(0, n - 2),
        ops: st.ops.drop_last(),
        expect_operator: false,
    };
    let next = reduce_top(st);
    let s1 = State { values: st.values.drop_last(), ops: st.ops, expect_operator: false };
    let s2 = State { values: st.values.drop_last(), ops: st.ops.drop_last(), expect_operator: true };
    assert(held(st) == held(s1) + spelled(right.value));
    assert(held(s1) == held(s2) + seq![TokenKind::Op(op)]);
    assert(s2.values.drop_last() =~= below.values);
    assert(held(s2) == held(below) + spelled(left.value));
    assert(next.values.drop_last() =~= below.values);
    assert(held(next) == held(below) + spelled(next.values.last().value));
    assert(held(below) + (spelled(left.value) + seq![TokenKind::Op(op)] + spelled(right.value))
        =~= held(below) + spelled(left.value) + seq![TokenKind::Op(op)] + spelled(right.value));
}

proof fn lemma_drain_held(st: State, incoming: Operator)
    requires
        sound(st, well_formed_trees()),
        st.expect_operator,
    ensures
        held(drain(st, incoming)) == held(st),
    decreases st.ops.len(),
{
    if st.ops.len() > 0 && applied_before(st.ops.last().value, incoming) {
        lemma_reduce_top_sound(st, well_formed_trees());
        lemma_reduce_top_held(st);
        lemma_drain_held(reduce_top(st), incoming);
    }
}

proof fn lemma_close_held(st: State, at: Span)
    requires
        sound(st, well_formed_trees()),
        st.expect_operator,
    ensures
        close(st, at) matches Ok(next) ==> held(next) == held(st),
    decreases st.ops.len(),
{
    if st.ops.len() == 0 {
    } else if st.ops.last().value == Operator::LParen {
        let next = close(st, at)->Ok_0;
        let s1 = State { values: st.values.drop_last(), ops: st.ops, expect_operator: false };
        assert(held(st) == held(s1) + spelled(st.values.last().value));
    } else {
        lemma_reduce_top_sound(st, well_formed_trees());
        lemma_reduce_top_held(st);
        lemma_close_held(reduce_top(st), at);
    }
}

proof fn lemma_step_held(st: State, token: Token)
    requires
        sound(st, well_formed_trees()),
    ensures
        step(st, token) matches Ok(next) ==> held(next) == held(st) + content_of(token),
{
    if let Ok(next) = step(st, token) {
        match token.kind {
            TokenKind::Number(n) => {
                assert(next.values.drop_last() =~= st.values);
            },
            TokenKind::Op(op) => {
                if op == Operator::LParen {
                    assert(next.ops.drop_last() =~= st.ops);
                    assert(held(st) + content_of(token) =~= held(st));
                } else if op == Operator::RParen {
                    lemma_close_held(st, token.span);
                    assert(held(st) + content_of(token) =~= held(st));
                } else {
                    lemma_drain_held(st, op);
                    lemma_drain_sound(st, op, well_formed_trees());
                    assert(next.ops.drop_last() =~= drain(st, op).ops);
                }
            },
            TokenKind::Eof => {
                assert(held(st) + content_of(token) =~= held(st));
            },
        }
    }
}

proof fn lemma_run_held(st: State, tokens: Seq<Token>)
    requires
        sound(st, well_formed_trees()),
    ensures
        run(st, tokens) matches Ok(end) ==> held(end) == held(st) + content(tokens),
    decreases tokens.len(),
{
    if tokens.len() == 0 {
        assert(held(st) + content(tokens) =~= held(st));
    } else {
        lemma_step_sound(st, tokens.first(), well_formed_trees());
        lemma_step_held(st, tokens.first());
        if let Ok(next) = step(st, tokens.first()) {
            lemma_run_held(next, tokens.drop_first());
            assert(held(st) + content_of(tokens.first()) + content(tokens.drop_first()) =~= held(
                st,
            ) + content(tokens));
        }
    }
}

proof fn lemma_unwind_held(st: State)
    requires
        sound(st, well_formed_trees()),
        st.expect_operator,
    ensures
        unwind(st) matches Ok(root) ==> spelled(root.value) == held(st),
    decreases st.ops.len(),
{
    if st.ops.len() == 0 {
        let below = State { values: st.values.drop_last(), ops: st.ops, expect_operator: false };
        assert(held(st) == held(below) + spelled(st.values.last().value));
        assert(held(below) + spelled(st.values.last().value) =~= spelled(st.values.last().value));
    } else if st.ops.last().value != Operator::LParen {
        lemma_reduce_top_sound(st, well_formed_trees());
        lemma_reduce_top_held(st);
        lemma_unwind_held(reduce_top(st));
    }
}

/// Parsing neither drops nor adds nor moves a number or an operator: read from left to
/// right, the tree holds what the tokens hold, less the parentheses.
pub proof fn lemma_parsed_reads_as_tokens(tokens: Seq<Token>)
    ensures
        parse_tokens(tokens) matches Ok(root) ==> spelled(root.value) == content(tokens),
{
    lemma_run_sound(initial(), tokens, well_formed_trees());
    lemma_run_held(initial(), tokens);
    if let Ok(end) = run(initial(), tokens) {
        if end.expect_operator {
            lemma_unwind_held(end);
            assert(held(initial()) + content(tokens) =~= content(tokens));
        }
    }
}

} // verus!
