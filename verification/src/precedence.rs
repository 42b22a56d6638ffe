//! How operators and signs group: a tighter operator takes its operands
//! first, operators that bind alike group from the left, and a sign applies
//! to the operand after it.

use crate::ast::{BinaryOp, ExprView, UnaryOp};
use crate::lex::TokenView;
use crate::parse::{
    binds, leading_signs, operator_of, parse_expr_spec, parse_operators_spec, sign_of,
    with_signs, ParseErrorView,
};
use crate::roundtrip::reading::lemma_parse_operand;
use crate::roundtrip::written::{
    lemma_tokens_start, opens_operand, operand_tokens, operator_token, quiet, sign_token,
};
use crate::valid::valid_expr;
use vstd::prelude::*;

verus! {

/// `left` and `right` joined by `op`.
pub open spec fn joined(op: BinaryOp, left: ExprView, right: ExprView) -> ExprView {
    ExprView::BinOp { op, left: Box::new(left), right: Box::new(right) }
}

/// An operand is read as it stands where it is all of an expression: with
/// nothing before it, and with nothing after it that the expression takes.
proof fn lemma_parse_lone_operand(
    operand: ExprView,
    rest: Seq<TokenView>,
    min: Option<BinaryOp>,
    after: ExprView,
    left: Seq<TokenView>,
)
    requires
        valid_expr(operand),
        operand is Variable ==> rest.len() == 0 || !(rest[0] is LeftParen),
        parse_operators_spec(operand, rest, min) == Ok::<_, ParseErrorView>((after, left)),
    ensures
        parse_expr_spec(operand_tokens(operand) + rest, min) == Ok::<_, ParseErrorView>(
            (after, left),
        ),
{
    let ts = operand_tokens(operand) + rest;
    lemma_tokens_start(operand);
    assert(opens_operand(ts[0]));
    assert(leading_signs(ts) =~= Seq::empty());
    assert(ts.skip(0) =~= ts);
    lemma_parse_operand(operand, rest);
}

/// What ends an expression ends the taking of operators.
proof fn lemma_operators_stop(left: ExprView, rest: Seq<TokenView>, min: Option<BinaryOp>)
    requires
        quiet(rest),
    ensures
        parse_operators_spec(left, rest, min) == Ok::<_, ParseErrorView>((left, rest)),
{
}

/// An operator that does not bind is left to the expression around.
proof fn lemma_operator_is_left(
    left: ExprView,
    op: BinaryOp,
    after: Seq<TokenView>,
    min: Option<BinaryOp>,
)
    requires
        !binds(op, min),
    ensures
        parse_operators_spec(left, seq![operator_token(op)] + after, min) == Ok::<
            _,
            ParseErrorView,
        >((left, seq![operator_token(op)] + after)),
{
    let ts = seq![operator_token(op)] + after;
    assert(operator_of(ts[0]) == Some(op));
}

/// An operator that binds takes the operand after it, and what follows the
/// operand is taken in turn.
proof fn lemma_operator_is_taken(
    left: ExprView,
    op: BinaryOp,
    after: Seq<TokenView>,
    min: Option<BinaryOp>,
    right: ExprView,
    rest: Seq<TokenView>,
    outcome: (ExprView, Seq<TokenView>),
)
    requires
        binds(op, min),
        parse_expr_spec(after, Some(op)) == Ok::<_, ParseErrorView>((right, rest)),
        rest.len() <= after.len(),
        parse_operators_spec(joined(op, left, right), rest, min) == Ok::<_, ParseErrorView>(
            outcome,
        ),
    ensures
        parse_operators_spec(left, seq![operator_token(op)] + after, min) == Ok::<
            _,
            ParseErrorView,
        >(outcome),
{
    let ts = seq![operator_token(op)] + after;
    assert(operator_of(ts[0]) == Some(op));
    assert(ts.drop_first() =~= after);
}

/// Of two operators in a row, the second takes the operand between them
/// where it binds tighter than the first, and the first takes it otherwise:
/// `x + y * z` is `x + (y * z)`, and `x - y - z` is `(x - y) - z`. This
/// holds for all operands, and whatever ends the expression.
pub proof fn lemma_two_operators(
    x: ExprView,
    first: BinaryOp,
    y: ExprView,
    second: BinaryOp,
    z: ExprView,
    rest: Seq<TokenView>,
)
    requires
        valid_expr(x),
        valid_expr(y),
        valid_expr(z),
        quiet(rest),
    ensures
        parse_expr_spec(
            operand_tokens(x) + seq![operator_token(first)] + operand_tokens(y) + seq![
                operator_token(second),
            ] + operand_tokens(z) + rest,
            None,
        ) == Ok::<_, ParseErrorView>(
            (
                if second.power() > first.power() {
                    joined(first, x, joined(second, y, z))
                } else {
                    joined(second, joined(first, x, y), z)
                },
                rest,
            ),
        ),
{
    let from_z = operand_tokens(z) + rest;
    let after_y = seq![operator_token(second)] + from_z;
    let from_y = operand_tokens(y) + after_y;
    let after_x = seq![operator_token(first)] + from_y;
    let all = operand_tokens(x) + after_x;
    assert(all =~= operand_tokens(x) + seq![operator_token(first)] + operand_tokens(y) + seq![
        operator_token(second),
    ] + operand_tokens(z) + rest);
    lemma_tokens_start(y);
    lemma_tokens_start(z);
    // the last operand, under the second operator
    lemma_operators_stop(z, rest, Some(second));
    lemma_parse_lone_operand(z, rest, Some(second), z, rest);
    if second.power() > first.power() {
        let inner = joined(second, y, z);
        let outer = joined(first, x, inner);
        lemma_operators_stop(inner, rest, Some(first));
        lemma_operator_is_taken(y, second, from_z, Some(first), z, rest, (inner, rest));
        lemma_parse_lone_operand(y, after_y, Some(first), inner, rest);
        lemma_operators_stop(outer, rest, None);
        lemma_operator_is_taken(x, first, from_y, None, inner, rest, (outer, rest));
        lemma_parse_lone_operand(x, after_x, None, outer, rest);
    } else {
        let inner = joined(first, x, y);
        let outer = joined(second, inner, z);
        lemma_operator_is_left(y, second, from_z, Some(first));
        lemma_parse_lone_operand(y, after_y, Some(first), y, after_y);
        lemma_operators_stop(outer, rest, None);
        lemma_operator_is_taken(inner, second, from_z, None, z, rest, (outer, rest));
        lemma_operator_is_taken(x, first, from_y, None, y, after_y, (outer, rest));
        lemma_parse_lone_operand(x, after_x, None, outer, rest);
    }
}

/// The tokens of some signs, in order.
pub open spec fn sign_tokens(signs: Seq<UnaryOp>) -> Seq<TokenView> {
    Seq::new(signs.len(), |i: int| sign_token(signs[i]))
}

/// The signs before an operand are read as they stand.
proof fn lemma_leading_signs_of(signs: Seq<UnaryOp>, tail: Seq<TokenView>)
    requires
        tail.len() == 0 || sign_of(tail[0]) is None,
    ensures
        leading_signs(sign_tokens(signs) + tail) == signs,
    decreases signs.len(),
{
    let ts = sign_tokens(signs) + tail;
    if signs.len() == 0 {
        assert(ts =~= tail);
        assert(leading_signs(ts) =~= signs);
    } else {
        assert(ts[0] == sign_token(signs[0]));
        assert(ts.drop_first() =~= sign_tokens(signs.drop_first()) + tail);
        lemma_leading_signs_of(signs.drop_first(), tail);
        assert(seq![signs[0]] + signs.drop_first() =~= signs);
    }
}

/// Signs before an operand apply to it from the right to the left, so that
/// the leftmost is outermost: `-+x` is the negation of `+x`. This holds for
/// all signs and operands, and whatever ends the expression.
pub proof fn lemma_signs_nest(
    signs: Seq<UnaryOp>,
    operand: ExprView,
    rest: Seq<TokenView>,
    min: Option<BinaryOp>,
)
    requires
        valid_expr(operand),
        quiet(rest),
    ensures
        parse_expr_spec(sign_tokens(signs) + operand_tokens(operand) + rest, min) == Ok::<
            _,
            ParseErrorView,
        >((with_signs(signs, operand), rest)),
{
    let tail = operand_tokens(operand) + rest;
    let ts = sign_tokens(signs) + tail;
    assert(ts =~= sign_tokens(signs) + operand_tokens(operand) + rest);
    lemma_tokens_start(operand);
    assert(opens_operand(tail[0]));
    lemma_leading_signs_of(signs, tail);
    assert(ts.skip(signs.len() as int) =~= tail);
    lemma_parse_operand(operand, rest);
}

} // verus!
