use vstd::prelude::*;
use crate::ast::{same_shape, Expr, Node};
use crate::errors::Error;
use crate::reading::spelled;
use crate::shunting_yard::{
    applied_before,
    balanced,
    combine,
    drain,
    initial,
    lemma_drain_sound,
    lemma_reduce_top_sound,
    lemma_step_sound,
    parse_tokens,
    reduce_top,
    run,
    step,
    unwind,
    State,
};
use crate::tokens::{eof_span, Operator, Token, TokenKind};

verus! {

/// No token is a parenthesis.
pub open spec fn without_parentheses(tokens: Seq<Token>) -> bool {
    forall|i: int|
        0 <= i < tokens.len() ==> ((#[trigger] tokens[i]).kind matches TokenKind::Op(op)
            ==> op.is_binary())
}

/// A tree may stand to the left of `op` without parentheses: it is a number, or an
/// operation that binds tighter than `op`, or as tight and groups to the left.
pub open spec fn fits_left(child: Expr, op: Operator) -> bool {
    match child {
        Expr::Num(_) => true,
        Expr::BinaryOp(inner, _, _) => applied_before(inner, op),
    }
}

/// A tree may stand to the right of `op` without parentheses: it is a number, or an
/// operation that binds tighter than `op`, or as tight and groups to the right.
pub open spec fn fits_right(op: Operator, child: Expr) -> bool {
    match child {
        Expr::Num(_) => true,
        Expr::BinaryOp(inner, _, _) => !applied_before(op, inner),
    }
}

/// The tree groups its operations as precedence and associativity alone demand: each
/// operand of each operation may stand where it stands without parentheses.
pub open spec fn graded(e: Expr) -> bool
    decreases e,
{
    match e {
        Expr::Num(_) => true,
        Expr::BinaryOp(op, left, right) => {
            &&& fits_left(*left.value, op)
            &&& fits_right(op, *right.value)
            &&& graded(*left.value)
            &&& graded(*right.value)
        },
    }
}

/// The stacks of a parser that has met no parenthesis: the operators that wait bind
/// tighter and tighter towards the top, and each operand may stand between its
/// neighbours.
pub open spec fn climbing(st: State) -> bool {
    &&& forall|j: int| 0 <= j < st.ops.len() ==> (#[trigger] st.ops[j]).value.is_binary()
    &&& forall|i: int| 0 <= i < st.values.len() ==> graded((#[trigger] st.values[i]).value)
    &&& forall|j: int|
        0 <= j < st.ops.len() && j < st.values.len() ==> fits_left(
            st.values[j].value,
            (#[trigger] st.ops[j]).value,
        )
    &&& forall|j: int|
        0 <= j < st.ops.len() && j + 1 < st.values.len() ==> fits_right(
            (#[trigger] st.ops[j]).value,
            st.values[j + 1].value,
        )
    &&& forall|j: int|
        0 <= j && j + 1 < st.ops.len() ==> !applied_before(
            (#[trigger] st.ops[j]).value,
            st.ops[j + 1].value,
        )
}

proof fn lemma_reduce_top_climbing(st: State)
    requires
        balanced(st),
        climbing(st),
        st.expect_operator,
        st.ops.len() > 0,
    ensures
        climbing(reduce_top(st)),
        reduce_top(st).values.len() > 0,
        reduce_top(st).values.last().value is BinaryOp,
        reduce_top(st).values.last().value->BinaryOp_0 == st.ops.last().value,
{
    let next = reduce_top(st);
    let m = st.ops.len() as int;
    assert(st.ops[m - 1].value.is_binary());
    lemma_reduce_top_sound(st, |e: Expr| true);
    assert(st.values.len() == m + 1) by {
        lemma_pending_all(st.ops);
    }
    let top = st.ops[m - 1].value;
    let left = st.values[m - 1];
    let right = st.values[m];
    assert(fits_left(left.value, top));
    assert(fits_right(top, right.value));
    assert(next.values[m - 1] == combine(top, left, right));
    assert(graded(next.values[m - 1].value));
    assert forall|j: int| 0 <= j < next.ops.len() implies (#[trigger] next.ops[j]).value.is_binary() by {
        assert(next.ops[j] == st.ops[j]);
    }
    assert forall|i: int| 0 <= i < next.values.len() implies graded(
        (#[trigger] next.values[i]).value,
    ) by {
        if i < m - 1 {
            assert(next.values[i] == st.values[i]);
        }
    }
    assert forall|j: int| 0 <= j < next.ops.len() && j < next.values.len() implies fits_left(
        next.values[j].value,
        (#[trigger] next.ops[j]).value,
    ) by {
        assert(next.ops[j] == st.ops[j]);
        assert(next.values[j] == st.values[j]);
    }
    assert forall|j: int| 0 <= j < next.ops.len() && j + 1 < next.values.len() implies fits_right(
        (#[trigger] next.ops[j]).value,
        next.values[j + 1].value,
    ) by {
        assert(next.ops[j] == st.ops[j]);
        if j + 1 < m - 1 {
            assert(next.values[j + 1] == st.values[j + 1]);
        } else {
            assert(!applied_before(st.ops[j].value, st.ops[j + 1].value));
        }
    }
    assert forall|j: int| 0 <= j && j + 1 < next.ops.len() implies !applied_before(
        (#[trigger] next.ops[j]).value,
        next.ops[j + 1].value,
    ) by {
        assert(next.ops[j] == st.ops[j]);
        assert(next.ops[j + 1] == st.ops[j + 1]);
    }
}

proof fn lemma_pending_all(ops: Seq<Node<Operator>>)
    requires
        forall|j: int| 0 <= j < ops.len() ==> (#[trigger] ops[j]).value.is_binary(),
    ensures
        crate::shunting_yard::pending(ops) == ops.len(),
    decreases ops.len(),
{
    if ops.len() > 0 {
        let rest = ops.drop_last();
        assert forall|j: int| 0 <= j < rest.len() implies (#[trigger] rest[j]).value.is_binary() by {
            assert(rest[j] == ops[j]);
        }
        lemma_pending_all(rest);
        assert(ops.last() == ops[ops.len() - 1]);
    }
}

proof fn lemma_drain_climbing(st: State, incoming: Operator)
    requires
        balanced(st),
        climbing(st),
        st.expect_operator,
        fits_left(st.values.last().value, incoming),
    ensures
        climbing(drain(st, incoming)),
        fits_left(drain(st, incoming).values.last().value, incoming),
        drain(st, incoming).ops.len() > 0 ==> !applied_before(
            drain(st, incoming).ops.last().value,
            incoming,
        ),
    decreases st.ops.len(),
{
    if st.ops.len() > 0 && applied_before(st.ops.last().value, incoming) {
        lemma_reduce_top_sound(st, |e: Expr| true);
        lemma_reduce_top_climbing(st);
        lemma_drain_climbing(reduce_top(st), incoming);
    } else if st.ops.len() > 0 {
        assert(st.ops[st.ops.len() - 1].value.is_binary());
    }
}

proof fn lemma_step_climbing(st: State, token: Token)
    requires
        balanced(st),
        climbing(st),
        st.expect_operator ==> st.values.last().value is Num,
        token.kind matches TokenKind::Op(op) ==> op.is_binary(),
    ensures
        step(st, token) matches Ok(next) ==> balanced(next) && climbing(next) && (
        next.expect_operator ==> next.values.last().value is Num),
{
    lemma_step_sound(st, token, |e: Expr| true);
    lemma_pending_all(st.ops);
    if let Ok(next) = step(st, token) {
        match token.kind {
            TokenKind::Number(n) => {
                let k = st.values.len() as int;
                assert forall|i: int| 0 <= i < next.values.len() implies graded(
                    (#[trigger] next.values[i]).value,
                ) by {
                    if i < k {
                        assert(next.values[i] == st.values[i]);
                    }
                }
                assert forall|j: int|
                    0 <= j < next.ops.len() && j < next.values.len() implies fits_left(
                    next.values[j].value,
                    (#[trigger] next.ops[j]).value,
                ) by {
                    if j < k {
                        assert(next.values[j] == st.values[j]);
                    }
                }
                assert forall|j: int|
                    0 <= j < next.ops.len() && j + 1 < next.values.len() implies fits_right(
                    (#[trigger] next.ops[j]).value,
                    next.values[j + 1].value,
                ) by {
                    if j + 1 < k {
                        assert(next.values[j + 1] == st.values[j + 1]);
                    }
                }
            },
            TokenKind::Op(op) => {
                let drained = drain(st, op);
                lemma_drain_sound(st, op, |e: Expr| true);
                lemma_drain_climbing(st, op);
                lemma_pending_all(drained.ops);
                let m = drained.ops.len() as int;
                assert forall|j: int| 0 <= j < next.ops.len() implies (
                #[trigger] next.ops[j]).value.is_binary() by {
                    if j < m {
                        assert(next.ops[j] == drained.ops[j]);
                    }
                }
                assert forall|j: int|
                    0 <= j < next.ops.len() && j < next.values.len() implies fits_left(
                    next.values[j].value,
                    (#[trigger] next.ops[j]).value,
                ) by {
                    if j < m {
                        assert(next.ops[j] == drained.ops[j]);
                    } else {
                        assert(drained.values.last() == drained.values[m]);
                    }
                }
                assert forall|j: int|
                    0 <= j < next.ops.len() && j + 1 < next.values.len() implies fits_right(
                    (#[trigger] next.ops[j]).value,
                    next.values[j + 1].value,
                ) by {
                    assert(next.ops[j] == drained.ops[j]);
                }
                assert forall|j: int| 0 <= j && j + 1 < next.ops.len() implies !applied_before(
                    (#[trigger] next.ops[j]).value,
                    next.ops[j + 1].value,
                ) by {
                    assert(next.ops[j] == drained.ops[j]);
                    if j + 1 < m {
                        assert(next.ops[j + 1] == drained.ops[j + 1]);
                    } else {
                        assert(drained.ops.last() == drained.ops[j]);
                    }
                }
            },
            TokenKind::Eof => {},
        }
    }
}

proof fn lemma_run_climbing(st: State, tokens: Seq<Token>)
    requires
        balanced(st),
        climbing(st),
        st.expect_operator ==> st.values.last().value is Num,
        without_parentheses(tokens),
    ensures
        run(st, tokens) matches Ok(end) ==> balanced(end) && climbing(end),
    decreases tokens.len(),
{
    if tokens.len() > 0 {
        assert(tokens.first() == tokens[0]);
        lemma_step_climbing(st, tokens.first());
        if let Ok(next) = step(st, tokens.first()) {
            let rest = tokens.drop_first();
            assert forall|i: int| 0 <= i < rest.len() implies ((
            #[trigger] rest[i]).kind matches TokenKind::Op(op) ==> op.is_binary()) by {
                assert(rest[i] == tokens[i + 1]);
            }
            lemma_run_climbing(next, rest);
        }
    }
}

proof fn lemma_unwind_climbing(st: State)
    requires
        balanced(st),
        climbing(st),
        st.expect_operator,
    ensures
        unwind(st) matches Ok(root) ==> graded(root.value),
    decreases st.ops.len(),
{
    if st.ops.len() == 0 {
        assert(st.values.first() == st.values[0]);
    } else if st.ops.last().value != Operator::LParen {
        lemma_reduce_top_sound(st, |e: Expr| true);
        lemma_reduce_top_climbing(st);
        lemma_unwind_climbing(reduce_top(st));
    }
}

/// Where the tokens hold no parenthesis, the tree groups its operations as precedence
/// and associativity demand: to the left of an operation stands nothing that binds
/// looser, nor as tight where the two group to the right; to its right stands nothing
/// that binds looser, nor as tight where the two group to the left.
pub proof fn lemma_parsed_is_graded(tokens: Seq<Token>)
    requires
        without_parentheses(tokens),
    ensures
        parse_tokens(tokens) matches Ok(root) ==> graded(root.value),
{
    lemma_run_climbing(initial(), tokens);
    if let Ok(end) = run(initial(), tokens) {
        if end.expect_operator {
            lemma_unwind_climbing(end);
        }
    }
}

/// The tokens of the given kinds, with no place in any text.
pub open spec fn plain(kinds: Seq<TokenKind>) -> Seq<Token> {
    Seq::new(kinds.len(), |i: int| Token { kind: kinds[i], span: eof_span() })
}

/// The tree with no place in any text.
pub open spec fn flat(e: Expr) -> Node<Expr>
    decreases e,
{
    match e {
        Expr::Num(n) => Node { value: Expr::Num(n), span: eof_span() },
        Expr::BinaryOp(op, left, right) => combine(op, flat(*left.value), flat(*right.value)),
    }
}

/// The state with one more operand, the whole tree.
pub open spec fn built(st: State, e: Expr) -> State {
    State { values: st.values.push(flat(e)), ops: st.ops, expect_operator: true }
}

/// The state once the reading of the tree has been read: the operations on the right
/// edge of the tree still wait on the stacks.
pub open spec fn after(st: State, e: Expr) -> State
    decreases e,
{
    match e {
        Expr::Num(_) => built(st, e),
        Expr::BinaryOp(op, left, right) => after(
            State {
                values: st.values.push(flat(*left.value)),
                ops: st.ops.push(Node { value: op, span: eof_span() }),
                expect_operator: false,
            },
            *right.value,
        ),
    }
}

proof fn lemma_after_expects(st: State, e: Expr)
    ensures
        after(st, e).expect_operator,
    decreases e,
{
    if let Expr::BinaryOp(op, left, right) = e {
        lemma_after_expects(
            State {
                values: st.values.push(flat(*left.value)),
                ops: st.ops.push(Node { value: op, span: eof_span() }),
                expect_operator: false,
            },
            *right.value,
        );
    }
}

proof fn lemma_drain_after(st: State, e: Expr, incoming: Operator)
    requires
        e.well_formed(),
        graded(e),
        fits_left(e, incoming),
        incoming.is_binary(),
    ensures
        drain(after(st, e), incoming) == drain(built(st, e), incoming),
    decreases e,
{
    if let Expr::BinaryOp(op, left, right) = e {
        let st1 = State {
            values: st.values.push(flat(*left.value)),
            ops: st.ops.push(Node { value: op, span: eof_span() }),
            expect_operator: false,
        };
        lemma_drain_after(st1, *right.value, incoming);
        let full = built(st1, *right.value);
        assert(reduce_top(full).values =~= built(st, e).values);
        assert(reduce_top(full).ops =~= st.ops);
        assert(reduce_top(full) == built(st, e));
    }
}

proof fn lemma_unwind_after(st: State, e: Expr)
    requires
        e.well_formed(),
    ensures
        unwind(after(st, e)) == unwind(built(st, e)),
    decreases e,
{
    if let Expr::BinaryOp(op, left, right) = e {
        let st1 = State {
            values: st.values.push(flat(*left.value)),
            ops: st.ops.push(Node { value: op, span: eof_span() }),
            expect_operator: false,
        };
        lemma_unwind_after(st1, *right.value);
        let full = built(st1, *right.value);
        assert(reduce_top(full).values =~= built(st, e).values);
        assert(reduce_top(full).ops =~= st.ops);
        assert(reduce_top(full) == built(st, e));
    }
}

proof fn lemma_run_reading(st: State, e: Expr, rest: Seq<Token>)
    requires
        e.well_formed(),
        graded(e),
        !st.expect_operator,
        st.ops.len() > 0 ==> fits_right(st.ops.last().value, e),
    ensures
        run(st, plain(spelled(e)) + rest) == run(after(st, e), rest),
    decreases e,
{
    let tokens = plain(spelled(e)) + rest;
    match e {
        Expr::Num(n) => {
            assert(tokens.first() == Token { kind: TokenKind::Number(n), span: eof_span() });
            assert(tokens.drop_first() =~= rest);
        },
        Expr::BinaryOp(op, left, right) => {
            let mid = Token { kind: TokenKind::Op(op), span: eof_span() };
            let after_mid = plain(spelled(*right.value)) + rest;
            let after_left = seq![mid] + after_mid;
            assert(tokens =~= plain(spelled(*left.value)) + after_left);
            lemma_run_reading(st, *left.value, after_left);
            let st0 = after(st, *left.value);
            lemma_after_expects(st, *left.value);
            assert(after_left.first() == mid);
            assert(after_left.drop_first() =~= after_mid);
            lemma_drain_after(st, *left.value, op);
            assert(drain(built(st, *left.value), op) == built(st, *left.value));
            let st1 = State {
                values: st.values.push(flat(*left.value)),
                ops: st.ops.push(Node { value: op, span: eof_span() }),
                expect_operator: false,
            };
            assert(step(st0, mid) == Ok::<State, Error>(st1));
            lemma_run_reading(st1, *right.value, rest);
        },
    }
}

proof fn lemma_flat_shape(e: Expr)
    ensures
        same_shape(flat(e).value, e),
    decreases e,
{
    if let Expr::BinaryOp(op, left, right) = e {
        lemma_flat_shape(*left.value);
        lemma_flat_shape(*right.value);
    }
}

/// A tree that groups its operations as precedence and associativity demand is what
/// parsing makes of its reading.
pub proof fn lemma_graded_tree_is_parsed(e: Expr)
    requires
        e.well_formed(),
        graded(e),
    ensures
        parse_tokens(plain(spelled(e))) matches Ok(root) && same_shape(root.value, e),
{
    let tokens = plain(spelled(e));
    let none = Seq::<Token>::empty();
    assert(tokens + none =~= tokens);
    lemma_run_reading(initial(), e, none);
    lemma_after_expects(initial(), e);
    lemma_unwind_after(initial(), e);
    assert(built(initial(), e).values.first() == flat(e));
    lemma_flat_shape(e);
}

/// Trees that are the same but for their spans are so in either order.
pub proof fn lemma_same_shape_symmetric(a: Expr, b: Expr)
    requires
        same_shape(a, b),
    ensures
        same_shape(b, a),
    decreases a,
{
    if let Expr::BinaryOp(op, left, right) = a {
        if let Expr::BinaryOp(other_op, other_left, other_right) = b {
            lemma_same_shape_symmetric(*left.value, *other_left.value);
            lemma_same_shape_symmetric(*right.value, *other_right.value);
        }
    }
}

/// Two trees that are each the same as a third but for their spans are so to each
/// other.
pub proof fn lemma_same_shape_transitive(a: Expr, b: Expr, c: Expr)
    requires
        same_shape(a, b),
        same_shape(b, c),
    ensures
        same_shape(a, c),
    decreases a,
{
    if let Expr::BinaryOp(op, left, right) = a {
        if let Expr::BinaryOp(b_op, b_left, b_right) = b {
            if let Expr::BinaryOp(c_op, c_left, c_right) = c {
                lemma_same_shape_transitive(*left.value, *b_left.value, *c_left.value);
                lemma_same_shape_transitive(*right.value, *b_right.value, *c_right.value);
            }
        }
    }
}

/// A reading has one grouping by precedence and associativity: two trees that group
/// so and read the same are the same but for their spans.
pub proof fn lemma_grouping_is_unique(a: Expr, b: Expr)
    requires
        a.well_formed(),
        b.well_formed(),
        graded(a),
        graded(b),
        spelled(a) == spelled(b),
    ensures
        same_shape(a, b),
{
    lemma_graded_tree_is_parsed(a);
    lemma_graded_tree_is_parsed(b);
    let root = parse_tokens(plain(spelled(a)))->Ok_0.value;
    lemma_same_shape_symmetric(root, a);
    lemma_same_shape_transitive(a, root, b);
}

} // verus!
