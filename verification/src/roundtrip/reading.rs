//! The parser reads the tokens of what is written as what was written.

use crate::ast::{BinaryOp, ExprView, ItemView};
use crate::format::is_atom;
use crate::lex::{before, TokenView};
use crate::parse::{
    assign_position, binds, item_of, leading_signs, lemma_leading_signs_len, operator_of,
    parse_expr_spec, parse_head_spec, parse_items_spec, parse_more_args_spec,
    parse_operators_spec, parse_params_spec, parse_primary_spec, sign_of, skip_newlines,
    with_signs, ParseErrorView,
};
use crate::roundtrip::written::{
    args_tokens, body_of, expr_tokens, following_args, following_params, head_tokens, in_parens,
    item_tokens, lemma_args_tokens_first, lemma_args_tokens_split, lemma_args_tokens_start,
    lemma_expr_tokens_plain, lemma_following_start, lemma_item_tokens_start,
    lemma_params_tokens_plain, lemma_params_tokens_split, lemma_plain_concat, lemma_tokens_start,
    opens_operand, operand_tokens, operator_token, params_tokens, plain, program_tokens, quiet,
    sign_token, unsigned,
};
use crate::valid::{valid_expr, valid_item, valid_items};
use vstd::prelude::*;

verus! {

/// What stands between parentheses is read as an expression, and the
/// closing parenthesis ends it.
pub(crate) proof fn lemma_parse_in_parens(e: ExprView, rest: Seq<TokenView>)
    requires
        valid_expr(e),
        parse_expr_spec(expr_tokens(e) + (seq![TokenView::RightParen] + rest), None) == Ok::<
            _,
            ParseErrorView,
        >((e, seq![TokenView::RightParen] + rest)),
    ensures
        parse_primary_spec(in_parens(expr_tokens(e)) + rest) == Ok::<_, ParseErrorView>((e, rest)),
{
    let ts = in_parens(expr_tokens(e)) + rest;
    let closing = seq![TokenView::RightParen] + rest;
    assert(ts[0] is LeftParen);
    assert(ts.drop_first() =~= expr_tokens(e) + closing);
    assert(closing.drop_first() =~= rest);
}

/// The text of an operand is read back as the operand.
pub proof fn lemma_parse_operand(e: ExprView, rest: Seq<TokenView>)
    requires
        valid_expr(e),
        e is Variable ==> rest.len() == 0 || !(rest[0] is LeftParen),
    ensures
        parse_primary_spec(operand_tokens(e) + rest) == Ok::<_, ParseErrorView>((e, rest)),
    decreases e, (if is_atom(e) { 0nat } else { 2nat }),
{
    let ts = operand_tokens(e) + rest;
    match e {
        ExprView::Lit(text) => {
            assert(ts.drop_first() =~= rest);
        },
        ExprView::Variable(name) => {
            assert(ts.drop_first() =~= rest);
        },
        ExprView::Call { func, args } => {
            let inner = args_tokens(args, args.len());
            let closing = seq![TokenView::RightParen] + rest;
            lemma_args_tokens_start(args, args.len());
            assert(ts =~= seq![TokenView::Ident(func), TokenView::LeftParen] + (inner + closing));
            assert(ts.skip(2) =~= inner + closing);
            assert(ts[2] == inner[0]);
            lemma_parse_args(args, 1, rest);
            lemma_args_tokens_first(args, args.len());
            let after_first = following_args(args, 1) + closing;
            assert(inner + closing =~= expr_tokens(args[0]) + after_first) by {
                lemma_args_tokens_split(args, 1);
            }
            lemma_following_start(args, 1, closing);
            lemma_parse_expr(args[0], after_first, None);
            assert(args.take(1) =~= seq![args[0]]);
            assert(after_first.len() < ts.len());
        },
        _ => {
            let closing = seq![TokenView::RightParen] + rest;
            lemma_parse_expr(e, closing, None);
            lemma_parse_in_parens(e, rest);
        },
    }
}

/// The arguments after the first `count` are read back, up to the closing
/// parenthesis.
pub(crate) proof fn lemma_parse_args(args: Seq<ExprView>, count: nat, rest: Seq<TokenView>)
    requires
        1 <= count <= args.len(),
        forall|i: int| 0 <= i < args.len() ==> valid_expr(#[trigger] args[i]),
    ensures
        parse_more_args_spec(
            args.take(count as int),
            following_args(args, count) + (seq![TokenView::RightParen] + rest),
        ) == Ok::<_, ParseErrorView>((args, rest)),
    decreases args, args.len() - count,
{
    let closing = seq![TokenView::RightParen] + rest;
    let ts = following_args(args, count) + closing;
    if count == args.len() {
        assert(ts =~= closing);
        assert(ts.drop_first() =~= rest);
        assert(args.take(count as int) =~= args);
    } else {
        let arg = args[count as int];
        let after = following_args(args, count + 1) + closing;
        assert(ts[0] is Comma);
        assert(ts.drop_first() =~= expr_tokens(arg) + after);
        lemma_following_start(args, count + 1, closing);
        lemma_parse_expr(arg, after, None);
        lemma_parse_args(args, count + 1, rest);
        assert(args.take(count as int).push(arg) =~= args.take(count + 1 as int));
    }
}

/// The text of an expression that is no binary operation is read back as
/// its signs and, after them, the expression under them.
pub proof fn lemma_parse_signed(e: ExprView, rest: Seq<TokenView>)
    requires
        valid_expr(e),
        !(e is BinOp),
        unsigned(e) is Variable ==> rest.len() == 0 || !(rest[0] is LeftParen),
    ensures
        ({
            let ts = expr_tokens(e) + rest;
            let signs = leading_signs(ts);
            &&& signs.len() < ts.len()
            &&& parse_primary_spec(ts.skip(signs.len() as int)) == Ok::<_, ParseErrorView>(
                (unsigned(e), rest),
            )
            &&& with_signs(signs, unsigned(e)) == e
        }),
    decreases e, (if is_atom(e) { 1nat } else { 0nat }),
{
    let ts = expr_tokens(e) + rest;
    lemma_tokens_start(e);
    match e {
        ExprView::UnOp { op, arg } => {
            let tail = if *arg is BinOp {
                in_parens(expr_tokens(*arg))
            } else {
                expr_tokens(*arg)
            };
            let inner = tail + rest;
            assert(ts =~= seq![sign_token(op)] + inner);
            assert(ts.drop_first() =~= inner);
            assert(sign_of(ts[0]) == Some(op));
            let signs = leading_signs(ts);
            assert(signs == seq![op] + leading_signs(inner));
            assert(signs.drop_first() =~= leading_signs(inner));
            lemma_leading_signs_len(inner);
            assert(signs.len() == 1 + leading_signs(inner).len());
            assert(ts.skip(signs.len() as int) =~= inner.skip(leading_signs(inner).len() as int));
            if *arg is BinOp {
                assert(inner[0] is LeftParen);
                assert(leading_signs(inner) =~= Seq::empty());
                assert(inner.skip(0) =~= inner);
                lemma_parse_operand(*arg, rest);
                assert(with_signs(signs.drop_first(), *arg) == *arg);
            } else {
                lemma_parse_signed(*arg, rest);
            }
        },
        _ => {
            assert(opens_operand(ts[0]));
            assert(leading_signs(ts) =~= Seq::empty());
            assert(ts.skip(0) =~= ts);
            lemma_parse_operand(e, rest);
        },
    }
}

/// The text of an expression is read back as the expression, where what
/// follows it ends it. A binary operation is read back so where it stands
/// alone, and any other expression also as the right operand of an
/// operator.
pub proof fn lemma_parse_expr(e: ExprView, rest: Seq<TokenView>, min: Option<BinaryOp>)
    requires
        valid_expr(e),
        quiet(rest),
        e is BinOp ==> min is None,
    ensures
        parse_expr_spec(expr_tokens(e) + rest, min) == Ok::<_, ParseErrorView>((e, rest)),
    decreases e, (if is_atom(e) { 2nat } else { 1nat }),
{
    let ts = expr_tokens(e) + rest;
    match e {
        ExprView::BinOp { op, left, right } => {
            let first = operand_tokens(*left);
            let second = operand_tokens(*right);
            let tail = seq![operator_token(op)] + (second + rest);
            lemma_tokens_start(*left);
            lemma_tokens_start(*right);
            assert(ts =~= first + tail);
            assert(opens_operand(ts[0]));
            assert(leading_signs(ts) =~= Seq::empty());
            assert(ts.skip(0) =~= ts);
            lemma_parse_operand(*left, tail);
            assert(tail.drop_first() =~= second + rest);
            assert(operator_of(tail[0]) == Some(op));
            assert(binds(op, min));
            // the right operand
            let right_ts = second + rest;
            assert(opens_operand(right_ts[0]));
            assert(leading_signs(right_ts) =~= Seq::empty());
            assert(right_ts.skip(0) =~= right_ts);
            lemma_parse_operand(*right, rest);
            assert(parse_operators_spec(*right, rest, Some(op)) == Ok::<_, ParseErrorView>(
                (*right, rest),
            ));
            assert(parse_expr_spec(right_ts, Some(op)) == Ok::<_, ParseErrorView>((*right, rest)));
            assert(with_signs(Seq::empty(), *left) == *left);
            assert(parse_operators_spec(e, rest, min) == Ok::<_, ParseErrorView>((e, rest)));
            assert(parse_operators_spec(*left, tail, min) == Ok::<_, ParseErrorView>((e, rest)));
        },
        _ => {
            lemma_parse_signed(e, rest);
            assert(parse_operators_spec(e, rest, min) == Ok::<_, ParseErrorView>((e, rest)));
        },
    }
}

/// Where no `:=` stands, none is found.
pub(crate) proof fn lemma_plain_has_no_assignment(tokens: Seq<TokenView>)
    requires
        plain(tokens),
    ensures
        assign_position(tokens) is None,
    decreases tokens.len(),
{
    if tokens.len() > 0 {
        assert(!(tokens[0] is Assign) && !(tokens[0] is Newline));
        assert forall|i: int| 0 <= i < tokens.drop_first().len() implies !(
        #[trigger] tokens.drop_first()[i] is Assign) && !(tokens.drop_first()[i] is Newline) by {
            assert(tokens.drop_first()[i] == tokens[i + 1]);
        }
        lemma_plain_has_no_assignment(tokens.drop_first());
    }
}

/// The first `:=` of a line is found after what stands before it.
pub(crate) proof fn lemma_assignment_found(head: Seq<TokenView>, rest: Seq<TokenView>)
    requires
        plain(head),
    ensures
        assign_position(head + seq![TokenView::Assign] + rest) == Some(head.len() as int),
    decreases head.len(),
{
    let line = head + seq![TokenView::Assign] + rest;
    if head.len() > 0 {
        assert(line[0] == head[0]);
        assert forall|i: int| 0 <= i < head.drop_first().len() implies !(
        #[trigger] head.drop_first()[i] is Assign) && !(head.drop_first()[i] is Newline) by {
            assert(head.drop_first()[i] == head[i + 1]);
        }
        assert(line.drop_first() =~= head.drop_first() + seq![TokenView::Assign] + rest);
        lemma_assignment_found(head.drop_first(), rest);
    } else {
        assert(line[0] is Assign);
    }
}

/// A line that holds no `:=` has none found in it.
pub(crate) proof fn lemma_no_assignment_found(line: Seq<TokenView>, rest: Seq<TokenView>)
    requires
        plain(line),
        rest.len() == 0 || rest[0] is Newline,
    ensures
        assign_position(line + rest) is None,
    decreases line.len(),
{
    let all = line + rest;
    if line.len() > 0 {
        assert(all[0] == line[0]);
        assert forall|i: int| 0 <= i < line.drop_first().len() implies !(
        #[trigger] line.drop_first()[i] is Assign) && !(line.drop_first()[i] is Newline) by {
            assert(line.drop_first()[i] == line[i + 1]);
        }
        assert(all.drop_first() =~= line.drop_first() + rest);
        lemma_no_assignment_found(line.drop_first(), rest);
    } else {
        assert(all =~= rest);
    }
}

/// The parameters after the first `count` are read back, up to the closing
/// parenthesis.
pub(crate) proof fn lemma_parse_params(params: Seq<Seq<char>>, count: nat)
    requires
        1 <= count <= params.len(),
    ensures
        parse_params_spec(
            params.take(count as int),
            following_params(params, count) + seq![TokenView::RightParen],
        ) == Ok::<_, ParseErrorView>(params),
    decreases params.len() - count,
{
    let closing = seq![TokenView::RightParen];
    let ts = following_params(params, count) + closing;
    if count == params.len() {
        assert(ts =~= closing);
        assert(params.take(count as int) =~= params);
    } else {
        let after = following_params(params, count + 1) + closing;
        assert(ts[0] is Comma);
        assert(ts[1] == TokenView::Ident(params[count as int]));
        assert(ts.skip(2) =~= after);
        lemma_parse_params(params, count + 1);
        assert(params.take(count as int).push(params[count as int]) =~= params.take(
            count + 1 as int,
        ));
    }
}

/// What an item holds before its `:=` is read back as its head.
pub(crate) proof fn lemma_parse_head(item: ItemView)
    requires
        valid_item(item),
        !(item is Expression),
    ensures
        plain(head_tokens(item)),
        parse_head_spec(head_tokens(item)) matches Ok(head) && item_of(Some(head), body_of(item))
            == item,
{
    match item {
        ItemView::FunctionDef { name, args, body } => {
            let head = head_tokens(item);
            let inner = params_tokens(args, args.len());
            let closing = seq![TokenView::RightParen];
            lemma_params_tokens_plain(args, args.len());
            lemma_plain_concat(seq![TokenView::Ident(name), TokenView::LeftParen], inner);
            lemma_plain_concat(seq![TokenView::Ident(name), TokenView::LeftParen] + inner, closing);
            assert(head =~= seq![TokenView::Ident(name), TokenView::LeftParen] + inner + closing);
            lemma_params_tokens_split(args, 1);
            assert(head =~= seq![
                TokenView::Ident(name),
                TokenView::LeftParen,
                TokenView::Ident(args[0]),
            ] + (following_params(args, 1) + closing));
            assert(head.skip(3) =~= following_params(args, 1) + closing);
            lemma_parse_params(args, 1);
            assert(args.take(1) =~= seq![args[0]]);
        },
        _ => {},
    }
}

/// The text of an item is read back as the item, where the tokens end after
/// it or go on with a newline.
pub(crate) proof fn lemma_parse_item(item: ItemView, rest: Seq<TokenView>)
    requires
        valid_item(item),
        rest.len() == 0 || rest[0] is Newline,
    ensures
        parse_items_spec(item_tokens(item) + rest) == if rest.len() == 0 {
            Ok::<_, ParseErrorView>(seq![item])
        } else {
            before(seq![item], parse_items_spec(skip_newlines(rest)))
        },
{
    let body = body_of(item);
    let ts = item_tokens(item) + rest;
    lemma_tokens_start(body);
    lemma_expr_tokens_plain(body);
    lemma_parse_expr(body, rest, None);
    if item is Expression {
        lemma_no_assignment_found(expr_tokens(body), rest);
    } else {
        let head = head_tokens(item);
        lemma_parse_head(item);
        assert(ts =~= head + seq![TokenView::Assign] + (expr_tokens(body) + rest));
        lemma_assignment_found(head, expr_tokens(body) + rest);
        assert(ts.take(head.len() as int) =~= head);
        assert(ts.skip(head.len() as int + 1) =~= expr_tokens(body) + rest);
    }
}

/// The text of a program is read back as the program.
pub proof fn lemma_parse_program(items: Seq<ItemView>)
    requires
        valid_items(items),
    ensures
        parse_items_spec(program_tokens(items)) == Ok::<_, ParseErrorView>(items),
        items.len() > 0 ==> program_tokens(items).len() > 0 && !(program_tokens(items)[0]
            is Newline),
    decreases items.len(),
{
    let none = Seq::<TokenView>::empty();
    if items.len() == 0 {
        assert(items =~= Seq::empty());
    } else if items.len() == 1 {
        assert(valid_item(items[0]));
        lemma_item_tokens_start(items[0]);
        lemma_parse_item(items[0], none);
        assert(item_tokens(items[0]) + none =~= item_tokens(items[0]));
        assert(items =~= seq![items[0]]);
    } else {
        let others = items.drop_first();
        assert(valid_item(items[0]));
        assert forall|i: int| 0 <= i < others.len() implies valid_item(#[trigger] others[i]) by {
            assert(others[i] == items[i + 1]);
        }
        lemma_item_tokens_start(items[0]);
        lemma_parse_program(others);
        let rest = seq![TokenView::Newline] + program_tokens(others);
        lemma_parse_item(items[0], rest);
        assert(rest.drop_first() =~= program_tokens(others));
        assert(skip_newlines(rest) == skip_newlines(rest.drop_first()));
        assert(skip_newlines(program_tokens(others)) == program_tokens(others));
        assert(program_tokens(items) =~= item_tokens(items[0]) + rest);
        assert(seq![items[0]] + others =~= items);
    }
}

} // verus!
