use std::ops::Range;
use vstd::prelude::*;
use crate::ast::{Expr, Node};
use crate::shunting_yard::{
    applied_before,
    close,
    drain,
    initial,
    lemma_close_sound,
    lemma_reduce_top_balanced,
    lemma_reduce_top_sound,
    lemma_run_sound,
    lemma_step_sound,
    lemma_unwind_sound,
    parse_tokens,
    reduce_top,
    run,
    sound,
    step,
    unwind,
    well_formed_trees,
    State,
};
use crate::errors::Error;
use crate::evaluator::{value_of, value_of_source};
use crate::lexer::{
    eof_token,
    is_digit,
    is_space,
    laid_out,
    lemma_number_end_bounds,
    lemma_scan_laid_out,
    lex,
    located,
    number_end,
    number_token,
    scan,
};
use crate::tokens::{eof_span, span, Operator, Span, Token, TokenKind};

verus! {

/// The first number among the tokens.
pub open spec fn first_number(tokens: Seq<Token>) -> Option<Token>
    decreases tokens.len(),
{
    if tokens.len() == 0 {
        None
    } else if tokens.first().kind is Number {
        Some(tokens.first())
    } else {
        first_number(tokens.drop_first())
    }
}

/// The last number among the tokens.
pub open spec fn last_number(tokens: Seq<Token>) -> Option<Token>
    decreases tokens.len(),
{
    if tokens.len() == 0 {
        None
    } else {
        match last_number(tokens.drop_first()) {
            Some(token) => Some(token),
            None => if tokens.first().kind is Number {
                Some(tokens.first())
            } else {
                None
            },
        }
    }
}

/// Two operand stacks are both empty, or begin at the same offset and end at the same.
pub open spec fn same_extent(a: Seq<Node<Expr>>, b: Seq<Node<Expr>>) -> bool {
    &&& a.len() == 0 <==> b.len() == 0
    &&& a.len() > 0 ==> a.first().span.start == b.first().span.start && a.last().span.end
        == b.last().span.end
}

proof fn lemma_reduce_top_extent(st: State)
    requires
        st.values.len() >= 2,
    ensures
        same_extent(st.values, reduce_top(st).values),
{
}

proof fn lemma_drain_extent(st: State, incoming: Operator)
    requires
        sound(st, well_formed_trees()),
        st.expect_operator,
    ensures
        same_extent(st.values, drain(st, incoming).values),
    decreases st.ops.len(),
{
    if st.ops.len() > 0 && applied_before(st.ops.last().value, incoming) {
        lemma_reduce_top_balanced(st);
        lemma_reduce_top_sound(st, well_formed_trees());
        lemma_reduce_top_extent(st);
        lemma_drain_extent(reduce_top(st), incoming);
    }
}

proof fn lemma_close_extent(st: State, at: Span)
    requires
        sound(st, well_formed_trees()),
        st.expect_operator,
    ensures
        close(st, at) matches Ok(next) ==> same_extent(st.values, next.values),
    decreases st.ops.len(),
{
    if st.ops.len() > 0 && st.ops.last().value != Operator::LParen {
        lemma_reduce_top_balanced(st);
        lemma_reduce_top_sound(st, well_formed_trees());
        lemma_reduce_top_extent(st);
        lemma_close_extent(reduce_top(st), at);
    }
}

proof fn lemma_unwind_extent(st: State)
    requires
        sound(st, well_formed_trees()),
        st.expect_operator,
    ensures
        unwind(st) matches Ok(root) ==> st.values.len() > 0 && root.span.start
            == st.values.first().span.start && root.span.end == st.values.last().span.end,
    decreases st.ops.len(),
{
    if st.ops.len() > 0 && st.ops.last().value != Operator::LParen {
        lemma_reduce_top_balanced(st);
        lemma_reduce_top_sound(st, well_formed_trees());
        lemma_reduce_top_extent(st);
        lemma_unwind_extent(reduce_top(st));
    }
}

proof fn lemma_step_extent(st: State, token: Token)
    requires
        sound(st, well_formed_trees()),
    ensures
        step(st, token) matches Ok(next) ==> match token.kind {
            TokenKind::Number(n) => next.values == st.values.push(
                Node { value: Expr::Num(n), span: token.span },
            ),
            _ => same_extent(st.values, next.values),
        },
{
    match token.kind {
        TokenKind::Op(op) => {
            if op != Operator::LParen && st.expect_operator {
                if op == Operator::RParen {
                    lemma_close_extent(st, token.span);
                } else {
                    lemma_drain_extent(st, op);
                }
            }
        },
        _ => {},
    }
}

proof fn lemma_run_extent(st: State, tokens: Seq<Token>)
    requires
        sound(st, well_formed_trees()),
    ensures
        run(st, tokens) matches Ok(end) ==> {
            &&& st.values.len() > 0 ==> end.values.len() > 0 && end.values.first().span.start
                == st.values.first().span.start
            &&& st.values.len() == 0 ==> match first_number(tokens) {
                Some(token) => end.values.len() > 0 && end.values.first().span.start
                    == token.span.start,
                None => end.values.len() == 0,
            }
            &&& match last_number(tokens) {
                Some(token) => end.values.len() > 0 && end.values.last().span.end == token.span.end,
                None => same_extent(st.values, end.values),
            }
        },
    decreases tokens.len(),
{
    if tokens.len() > 0 {
        lemma_step_sound(st, tokens.first(), well_formed_trees());
        lemma_step_extent(st, tokens.first());
        if let Ok(next) = step(st, tokens.first()) {
            lemma_run_extent(next, tokens.drop_first());
        }
    }
}

/// The tree of a valid token sequence reaches from the start of its first number to the
/// end of its last one.
pub proof fn lemma_root_spans_numbers(tokens: Seq<Token>)
    ensures
        parse_tokens(tokens) matches Ok(root) ==> {
            &&& first_number(tokens) matches Some(first)
            &&& last_number(tokens) matches Some(last)
            &&& root.span == (Range { start: first.span.start, end: last.span.end })
        },
{
    lemma_run_sound(initial(), tokens, well_formed_trees());
    lemma_run_extent(initial(), tokens);
    if let Ok(end) = run(initial(), tokens) {
        if end.expect_operator {
            lemma_unwind_extent(end);
        }
    }
}

/// Whether an operator has to follow once a token of this kind has been accepted.
pub open spec fn flag_after(kind: TokenKind, before: bool) -> bool {
    match kind {
        TokenKind::Number(_) => true,
        TokenKind::Op(op) => op == Operator::RParen,
        TokenKind::Eof => before,
    }
}

/// Whether an operator has to follow once all these tokens have been accepted.
pub open spec fn flag_after_all(before: bool, tokens: Seq<Token>) -> bool
    decreases tokens.len(),
{
    if tokens.len() == 0 {
        before
    } else {
        flag_after_all(flag_after(tokens.first().kind, before), tokens.drop_first())
    }
}

proof fn lemma_run_flag(st: State, tokens: Seq<Token>)
    requires
        sound(st, well_formed_trees()),
    ensures
        run(st, tokens) matches Ok(end) ==> end.expect_operator == flag_after_all(
            st.expect_operator,
            tokens,
        ),
    decreases tokens.len(),
{
    if tokens.len() > 0 {
        let token = tokens.first();
        lemma_step_sound(st, token, well_formed_trees());
        if let TokenKind::Op(op) = token.kind {
            if op == Operator::RParen && st.expect_operator {
                lemma_close_sound(st, token.span, well_formed_trees());
            }
        }
        if let Ok(next) = step(st, token) {
            lemma_run_flag(next, tokens.drop_first());
        }
    }
}

proof fn lemma_number_end_digits(src: Seq<char>, from: int)
    requires
        0 <= from <= src.len(),
    ensures
        forall|i: int| from <= i < number_end(src, from) ==> is_digit(#[trigger] src[i]),
    decreases src.len() - from,
{
    if from < src.len() && is_digit(src[from]) {
        lemma_number_end_digits(src, from + 1);
    }
}

proof fn lemma_only_eof(before: bool)
    ensures
        last_number(seq![eof_token()]) is None,
        flag_after_all(before, seq![eof_token()]) == before,
{
    let only = seq![eof_token()];
    assert(only.drop_first().len() == 0);
    assert(last_number(only.drop_first()) is None);
    assert(flag_after_all(before, only.drop_first()) == before);
}

proof fn lemma_scan_last_char(src: Seq<char>, pos: int, flag: bool)
    requires
        0 <= pos < src.len(),
        !is_space(src.last()),
    ensures
        scan(src, pos) matches Ok(tokens) ==> if is_digit(src.last()) {
            last_number(tokens) matches Some(token) && token.span.end == src.len() as usize
        } else {
            Operator::of_char(src.last()) matches Some(op) && (op != Operator::RParen
                ==> !flag_after_all(flag, tokens))
        },
    decreases src.len() - pos,
{
    if let Ok(tokens) = scan(src, pos) {
        if !is_digit(src[pos]) && is_space(src[pos]) {
            lemma_scan_last_char(src, pos + 1, flag);
        } else {
            let next = if is_digit(src[pos]) {
                number_end(src, pos)
            } else {
                pos + 1
            };
            lemma_number_end_bounds(src, pos);
            lemma_number_end_digits(src, pos);
            let rest = scan(src, next)->Ok_0;
            let then = flag_after(tokens.first().kind, flag);
            assert(tokens.drop_first() =~= rest);
            assert(flag_after_all(flag, tokens) == flag_after_all(then, rest));
            if next < src.len() {
                lemma_scan_last_char(src, next, then);
            } else {
                assert(rest =~= seq![eof_token()]);
                lemma_only_eof(then);
                assert(is_digit(src[pos]) ==> is_digit(src[src.len() - 1]));
            }
        }
    }
}

proof fn lemma_scan_first_char(src: Seq<char>)
    requires
        src.len() > 0,
        !is_space(src.first()),
        src.first() != '(',
        lex(src) matches Ok(tokens) && parse_tokens(tokens) is Ok,
    ensures
        lex(src) matches Ok(tokens) && first_number(tokens) matches Some(token) && token.span.start
            == 0,
{
    let tokens = lex(src)->Ok_0;
    if is_digit(src[0]) {
        assert(tokens.first() == number_token(src, 0)->Ok_0);
    } else {
        let op = Operator::of_char(src[0])->Some_0;
        assert(tokens.first().kind == TokenKind::Op(op));
        assert(step(initial(), tokens.first()) is Err);
    }
}

/// A text that holds a valid expression, and neither begins nor ends with white space
/// or with a parenthesis, is parsed to a tree whose span is the whole text.
pub proof fn lemma_root_spans_whole_text(source: Seq<char>)
    requires
        lex(source) matches Ok(tokens) && parse_tokens(tokens) is Ok,
        !is_space(source.first()),
        !is_space(source.last()),
        source.first() != '(',
        source.last() != ')',
    ensures
        lex(source) matches Ok(tokens) && parse_tokens(tokens) matches Ok(root) && root.span
            == span(0, source.len() as int),
{
    let tokens = lex(source)->Ok_0;
    lemma_run_flag(initial(), tokens);
    if source.len() == 0 {
        assert(tokens =~= seq![eof_token()]);
        assert(tokens.drop_first().len() == 0);
        assert(flag_after_all(false, tokens) == flag_after_all(false, tokens.drop_first()));
    } else {
        lemma_scan_first_char(source);
        lemma_scan_last_char(source, 0, false);
        lemma_root_spans_numbers(tokens);
    }
}

/// The spans of a tree fit together: a number covers at least one character, and an
/// operation reaches from the start of its left operand to the end of its right one,
/// which begins where the left one ends, or later.
pub open spec fn nested(e: Expr, s: Span) -> bool
    decreases e,
{
    &&& s.start < s.end
    &&& match e {
        Expr::Num(_) => true,
        Expr::BinaryOp(_, left, right) => {
            &&& s.start == left.span.start
            &&& s.end == right.span.end
            &&& left.span.end <= right.span.start
            &&& nested(*left.value, left.span)
            &&& nested(*right.value, right.span)
        },
    }
}

/// The operands stand in reading order before the offset `limit`, each with spans that
/// fit together, and the operators that wait each cover a character before `limit`.
pub open spec fn in_order(st: State, limit: int) -> bool {
    &&& forall|i: int|
        0 <= i < st.values.len() ==> nested((#[trigger] st.values[i]).value, st.values[i].span)
            && st.values[i].span.end <= limit
    &&& forall|i: int, j: int|
        0 <= i < j < st.values.len() ==> (#[trigger] st.values[i]).span.end <= (
        #[trigger] st.values[j]).span.start
    &&& forall|i: int| 0 <= i < st.ops.len() ==> located((#[trigger] st.ops[i]).span, limit)
}

proof fn lemma_reduce_top_in_order(st: State, limit: int)
    requires
        in_order(st, limit),
        st.values.len() >= 2,
        st.ops.len() > 0,
    ensures
        in_order(reduce_top(st), limit),
{
    let next = reduce_top(st);
    let n = st.values.len() as int;
    let left = st.values[n - 2];
    let right = st.values[n - 1];
    assert(left.span.end <= right.span.start);
    assert(nested(next.values[n - 2].value, next.values[n - 2].span));
    assert forall|i: int| 0 <= i < next.values.len() implies nested(
        (#[trigger] next.values[i]).value,
        next.values[i].span,
    ) && next.values[i].span.end <= limit by {
        if i < n - 2 {
            assert(next.values[i] == st.values[i]);
        }
    }
    assert forall|i: int, j: int| 0 <= i < j < next.values.len() implies (
    #[trigger] next.values[i]).span.end <= (#[trigger] next.values[j]).span.start by {
        assert(next.values[i] == st.values[i]);
        if j < n - 2 {
            assert(next.values[j] == st.values[j]);
        } else {
            assert(st.values[i].span.end <= left.span.start);
        }
    }
    assert forall|i: int| 0 <= i < next.ops.len() implies located(
        (#[trigger] next.ops[i]).span,
        limit,
    ) by {
        assert(next.ops[i] == st.ops[i]);
    }
}

proof fn lemma_drain_in_order(st: State, incoming: Operator, limit: int)
    requires
        sound(st, well_formed_trees()),
        st.expect_operator,
        in_order(st, limit),
    ensures
        in_order(drain(st, incoming), limit),
    decreases st.ops.len(),
{
    if st.ops.len() > 0 && applied_before(st.ops.last().value, incoming) {
        lemma_reduce_top_sound(st, well_formed_trees());
        lemma_reduce_top_in_order(st, limit);
        lemma_drain_in_order(reduce_top(st), incoming, limit);
    }
}

proof fn lemma_close_in_order(st: State, at: Span, limit: int)
    requires
        sound(st, well_formed_trees()),
        st.expect_operator,
        in_order(st, limit),
    ensures
        match close(st, at) {
            Ok(next) => in_order(next, limit),
            Err(e) => e.span == at,
        },
    decreases st.ops.len(),
{
    if st.ops.len() == 0 {
    } else if st.ops.last().value == Operator::LParen {
        let next = close(st, at)->Ok_0;
        assert forall|i: int| 0 <= i < next.ops.len() implies located(
            (#[trigger] next.ops[i]).span,
            limit,
        ) by {
            assert(next.ops[i] == st.ops[i]);
        }
    } else {
        lemma_reduce_top_sound(st, well_formed_trees());
        lemma_reduce_top_in_order(st, limit);
        lemma_close_in_order(reduce_top(st), at, limit);
    }
}

proof fn lemma_unwind_in_order(st: State, limit: int)
    requires
        sound(st, well_formed_trees()),
        st.expect_operator,
        in_order(st, limit),
    ensures
        match unwind(st) {
            Ok(root) => nested(root.value, root.span) && root.span.end <= limit,
            Err(e) => located(e.span, limit),
        },
    decreases st.ops.len(),
{
    if st.ops.len() == 0 {
        assert(st.values.first() == st.values[0]);
    } else if st.ops.last().value == Operator::LParen {
        assert(st.ops.last() == st.ops[st.ops.len() - 1]);
    } else {
        lemma_reduce_top_sound(st, well_formed_trees());
        lemma_reduce_top_in_order(st, limit);
        lemma_unwind_in_order(reduce_top(st), limit);
    }
}

proof fn lemma_in_order_later(st: State, limit: int, later: int)
    requires
        in_order(st, limit),
        limit <= later,
    ensures
        in_order(st, later),
{
}

proof fn lemma_step_in_order(st: State, token: Token, limit: int, to: int)
    requires
        sound(st, well_formed_trees()),
        in_order(st, limit),
        !(token.kind is Eof),
        limit <= token.span.start,
        located(token.span, to),
    ensures
        match step(st, token) {
            Ok(next) => in_order(next, token.span.end as int),
            Err(e) => e.span == token.span,
        },
{
    let end = token.span.end as int;
    lemma_in_order_later(st, limit, end);
    match token.kind {
        TokenKind::Number(n) => {
            if !st.expect_operator {
                let next = step(st, token)->Ok_0;
                let last = st.values.len() as int;
                assert forall|i: int| 0 <= i < next.values.len() implies nested(
                    (#[trigger] next.values[i]).value,
                    next.values[i].span,
                ) && next.values[i].span.end <= end by {
                    if i < last {
                        assert(next.values[i] == st.values[i]);
                    }
                }
                assert forall|i: int, j: int| 0 <= i < j < next.values.len() implies (
                #[trigger] next.values[i]).span.end <= (#[trigger] next.values[j]).span.start by {
                    assert(next.values[i] == st.values[i]);
                    if j < last {
                        assert(next.values[j] == st.values[j]);
                    }
                }
            }
        },
        TokenKind::Op(op) => {
            if op == Operator::LParen {
                if !st.expect_operator {
                    lemma_pushed_in_order(st, Node { value: op, span: token.span }, end);
                }
            } else if st.expect_operator {
                if op == Operator::RParen {
                    lemma_close_in_order(st, token.span, end);
                } else {
                    lemma_drain_in_order(st, op, end);
                    lemma_pushed_in_order(drain(st, op), Node { value: op, span: token.span }, end);
                }
            }
        },
        TokenKind::Eof => {},
    }
}

proof fn lemma_pushed_in_order(st: State, entry: Node<Operator>, limit: int)
    requires
        in_order(st, limit),
        located(entry.span, limit),
    ensures
        in_order(
            State { values: st.values, ops: st.ops.push(entry), expect_operator: false },
            limit,
        ),
{
    let ops = st.ops.push(entry);
    assert forall|i: int| 0 <= i < ops.len() implies located((#[trigger] ops[i]).span, limit) by {
        if i < st.ops.len() {
            assert(ops[i] == st.ops[i]);
        }
    }
}

proof fn lemma_run_in_order(st: State, tokens: Seq<Token>, limit: int, to: int)
    requires
        sound(st, well_formed_trees()),
        in_order(st, limit),
        laid_out(tokens, limit, to),
        limit <= to,
    ensures
        match run(st, tokens) {
            Ok(end) => in_order(end, to),
            Err(e) => located(e.span, to),
        },
    decreases tokens.len(),
{
    let first = tokens.first();
    let rest = tokens.drop_first();
    if tokens.len() == 1 {
        assert(run(st, rest) == Ok::<State, Error>(st));
        lemma_in_order_later(st, limit, to);
    } else {
        lemma_step_sound(st, first, well_formed_trees());
        lemma_step_in_order(st, first, limit, to);
        if let Ok(next) = step(st, first) {
            lemma_run_in_order(next, rest, first.span.end as int, to);
        }
    }
}

proof fn lemma_value_located(e: Expr, s: Span)
    requires
        e.well_formed(),
        nested(e, s),
    ensures
        value_of(e) matches Err(err) ==> s.start <= err.span.start && err.span.start < err.span.end
            && err.span.end <= s.end,
    decreases e,
{
    match e {
        Expr::Num(_) => {},
        Expr::BinaryOp(op, left, right) => {
            reveal_with_fuel(nested, 2);
            lemma_value_located(*left.value, left.span);
            lemma_value_located(*right.value, right.span);
        },
    }
}

/// Every span that is handed out for a text covers at least one character of that
/// text, but for the span of the end of input, which has no place in it: the spans
/// of the tokens, which stand in reading order, those of the tree, which fit
/// together, and that of an error of lexing, parsing or evaluation.
pub proof fn lemma_spans_are_located(source: Seq<char>)
    requires
        source.len() <= usize::MAX,
    ensures
        match lex(source) {
            Err(e) => located(e.span, source.len() as int),
            Ok(tokens) => laid_out(tokens, 0, source.len() as int) && match parse_tokens(tokens) {
                Err(e) => e.span == eof_span() || located(e.span, source.len() as int),
                Ok(root) => nested(root.value, root.span) && root.span.end <= source.len(),
            },
        },
        value_of_source(source) matches Err(e) ==> e.span == eof_span() || located(
            e.span,
            source.len() as int,
        ),
{
    let len = source.len() as int;
    lemma_scan_laid_out(source, 0);
    if let Ok(tokens) = lex(source) {
        lemma_run_sound(initial(), tokens, well_formed_trees());
        lemma_run_in_order(initial(), tokens, 0, len);
        if let Ok(end) = run(initial(), tokens) {
            if end.expect_operator {
                lemma_unwind_in_order(end, len);
                lemma_unwind_sound(end, well_formed_trees());
                if let Ok(root) = unwind(end) {
                    lemma_value_located(root.value, root.span);
                }
            }
        }
    }
}

} // verus!
