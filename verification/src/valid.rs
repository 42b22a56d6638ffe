//! What can be written and read back: names, numeric literals, and the
//! expressions and items that are made of them. The lexer and the parser
//! yield nothing else.

use crate::ast::{BinaryOp, ExprView, ItemView, UnaryOp};
use crate::lex::{
    lemma_number_end_bounds, lemma_run_end_bounds, lemma_token_at_bounds, lex_from, lex_spec,
    number_end, run_end, token_at, CharClass, TokenView,
};
use crate::parse::{
    assign_position, leading_signs, lemma_assign_position_bounds, lemma_leading_signs_len,
    lemma_parse_expr_progress, lemma_skip_newlines_len, operator_of, parse_expr_spec,
    parse_head_spec, parse_items_spec, parse_more_args_spec, parse_operators_spec,
    parse_params_spec, parse_primary_spec, parse_spec, skip_newlines, with_signs,
};
use vstd::prelude::*;

verus! {

/// A name: one ASCII letter or more.
pub open spec fn is_name(text: Seq<char>) -> bool {
    text.len() > 0 && forall|i: int| 0 <= i < text.len() ==> CharClass::Alphabetic.holds(text[i])
}

/// A numeric literal: digits, then optionally a dot and further digits, or
/// a dot and at least one digit, and nothing else.
pub open spec fn is_number(text: Seq<char>) -> bool {
    text.len() > 0 && number_end(text, 0) == text.len()
}

/// An expression that can be written: its literals are numeric literals,
/// its names are names, and each call has an argument.
pub open spec fn valid_expr(e: ExprView) -> bool
    decreases e,
{
    match e {
        ExprView::Lit(text) => is_number(text),
        ExprView::Variable(name) => is_name(name),
        ExprView::Call { func, args } => is_name(func) && args.len() >= 1 && forall|i: int|
            0 <= i < args.len() ==> valid_expr(#[trigger] args[i]),
        ExprView::UnOp { op, arg } => valid_expr(*arg),
        ExprView::BinOp { op, left, right } => valid_expr(*left) && valid_expr(*right),
    }
}

/// The characters of a numeric literal are digits and dots, and the first
/// of them starts a literal.
pub proof fn lemma_number_chars(text: Seq<char>)
    requires
        is_number(text),
    ensures
        CharClass::Digit.holds(text[0]) || text[0] == '.',
        forall|i: int|
            0 <= i < text.len() ==> CharClass::Digit.holds(#[trigger] text[i]) || text[i] == '.',
{
    lemma_run_end_bounds(text, 0, CharClass::Digit);
    let whole = run_end(text, 0, CharClass::Digit);
    if whole < text.len() {
        lemma_run_end_bounds(text, whole + 1, CharClass::Digit);
    }
    lemma_run_end_bounds(text, 1, CharClass::Digit);
}

/// A token whose text, if it has one, is what its kind asks for.
pub open spec fn valid_token(token: TokenView) -> bool {
    match token {
        TokenView::Ident(text) => is_name(text),
        TokenView::NumLit(text) => is_number(text),
        _ => true,
    }
}

/// Tokens that are all valid.
pub open spec fn valid_tokens(tokens: Seq<TokenView>) -> bool {
    forall|i: int| 0 <= i < tokens.len() ==> valid_token(#[trigger] tokens[i])
}

/// An item that can be written: its names are names, a function has a
/// parameter, and its expression is valid.
pub open spec fn valid_item(item: ItemView) -> bool {
    match item {
        ItemView::Expression(body) => valid_expr(body),
        ItemView::Assignment { name, body } => is_name(name) && valid_expr(body),
        ItemView::FunctionDef { name, args, body } => {
            &&& is_name(name)
            &&& args.len() >= 1
            &&& forall|i: int| 0 <= i < args.len() ==> is_name(#[trigger] args[i])
            &&& valid_expr(body)
        },
    }
}

/// A run within a piece of the text ends where the run in the text ends, or
/// with the piece.
proof fn lemma_run_end_of_piece(s: Seq<char>, from: int, to: int, index: int, class: CharClass)
    requires
        0 <= from <= index <= to <= s.len(),
    ensures
        run_end(s.subrange(from, to), index - from, class) == (if run_end(s, index, class) < to {
            run_end(s, index, class)
        } else {
            to
        }) - from,
    decreases to - index,
{
    let piece = s.subrange(from, to);
    if index < to {
        assert(piece[index - from] == s[index]);
        if class.holds(s[index]) {
            lemma_run_end_of_piece(s, from, to, index + 1, class);
        }
    }
    lemma_run_end_bounds(s, index, class);
}

/// The text of a literal that the lexer reads is a numeric literal.
proof fn lemma_number_text(s: Seq<char>, pos: int)
    requires
        0 <= pos < s.len(),
        pos < number_end(s, pos),
    ensures
        is_number(s.subrange(pos, number_end(s, pos))),
{
    let end = number_end(s, pos);
    let text = s.subrange(pos, end);
    let whole = run_end(s, pos, CharClass::Digit);
    lemma_number_end_bounds(s, pos);
    lemma_run_end_bounds(s, pos, CharClass::Digit);
    lemma_run_end_of_piece(s, pos, end, pos, CharClass::Digit);
    if whole > pos {
        if whole < s.len() && s[whole] == '.' {
            lemma_run_end_bounds(s, whole + 1, CharClass::Digit);
            lemma_run_end_of_piece(s, pos, end, whole + 1, CharClass::Digit);
            assert(text[whole - pos] == s[whole]);
        }
    } else {
        lemma_run_end_bounds(s, pos + 1, CharClass::Digit);
        lemma_run_end_of_piece(s, pos, end, pos + 1, CharClass::Digit);
        assert(text[0] == s[pos]);
    }
}

/// The token that the lexer reads at a position is valid.
proof fn lemma_token_at_valid(s: Seq<char>, pos: int)
    requires
        0 <= pos < s.len(),
    ensures
        token_at(s, pos) matches Ok((token, _)) ==> valid_token(token),
{
    lemma_token_at_bounds(s, pos);
    lemma_run_end_bounds(s, pos, CharClass::Alphabetic);
    lemma_number_end_bounds(s, pos);
    if let Ok((token, end)) = token_at(s, pos) {
        match token {
            TokenView::Ident(text) => {
                assert forall|i: int| 0 <= i < text.len() implies CharClass::Alphabetic.holds(
                    text[i],
                ) by {
                    assert(text[i] == s[pos + i]);
                }
            },
            TokenView::NumLit(text) => {
                lemma_number_text(s, pos);
            },
            _ => {},
        }
    }
}

/// The tokens that the lexer reads are valid.
pub proof fn lemma_lex_from_valid(s: Seq<char>, pos: int)
    requires
        0 <= pos <= s.len(),
    ensures
        lex_from(s, pos) matches Ok(tokens) ==> valid_tokens(tokens),
    decreases s.len() - pos,
{
    let start = run_end(s, pos, CharClass::Blank);
    lemma_run_end_bounds(s, pos, CharClass::Blank);
    if start < s.len() {
        lemma_token_at_bounds(s, start);
        lemma_token_at_valid(s, start);
        if let Ok((token, end)) = token_at(s, start) {
            lemma_lex_from_valid(s, end);
            if let Ok(more) = lex_from(s, end) {
                let tokens = seq![token] + more;
                assert forall|i: int| 0 <= i < tokens.len() implies valid_token(
                    #[trigger] tokens[i],
                ) by {
                    if i > 0 {
                        assert(tokens[i] == more[i - 1]);
                    }
                }
            }
        }
    }
}

/// Valid tokens without some of the first are valid.
proof fn lemma_valid_tokens_skip(tokens: Seq<TokenView>, count: int)
    requires
        valid_tokens(tokens),
        0 <= count <= tokens.len(),
    ensures
        valid_tokens(tokens.skip(count)),
{
    assert forall|i: int| 0 <= i < tokens.skip(count).len() implies valid_token(
        #[trigger] tokens.skip(count)[i],
    ) by {
        assert(tokens.skip(count)[i] == tokens[i + count]);
    }
}

/// Valid tokens up to one of them are valid.
proof fn lemma_valid_tokens_take(tokens: Seq<TokenView>, count: int)
    requires
        valid_tokens(tokens),
        0 <= count <= tokens.len(),
    ensures
        valid_tokens(tokens.take(count)),
{
    assert forall|i: int| 0 <= i < tokens.take(count).len() implies valid_token(
        #[trigger] tokens.take(count)[i],
    ) by {
        assert(tokens.take(count)[i] == tokens[i]);
    }
}

/// A valid expression under signs is valid.
proof fn lemma_with_signs_valid(signs: Seq<UnaryOp>, operand: ExprView)
    requires
        valid_expr(operand),
    ensures
        valid_expr(with_signs(signs, operand)),
    decreases signs.len(),
{
    if signs.len() > 0 {
        lemma_with_signs_valid(signs.drop_first(), operand);
    }
}

/// The expression that is parsed from valid tokens is valid, and so are the
/// tokens that follow it.
pub proof fn lemma_parse_expr_valid(ts: Seq<TokenView>, min: Option<BinaryOp>)
    requires
        valid_tokens(ts),
    ensures
        parse_expr_spec(ts, min) matches Ok((e, rest)) ==> valid_expr(e) && valid_tokens(rest),
    decreases ts.len(), 2int,
{
    let signs = leading_signs(ts);
    let after = ts.skip(signs.len() as int);
    lemma_leading_signs_len(ts);
    lemma_valid_tokens_skip(ts, signs.len() as int);
    lemma_parse_primary_valid(after);
    if let Ok((primary, rest)) = parse_primary_spec(after) {
        lemma_with_signs_valid(signs, primary);
        if rest.len() <= ts.len() {
            lemma_parse_operators_valid(with_signs(signs, primary), rest, min);
        }
    }
}

/// The primary that is parsed from valid tokens is valid, and so are the
/// tokens that follow it.
pub proof fn lemma_parse_primary_valid(ts: Seq<TokenView>)
    requires
        valid_tokens(ts),
    ensures
        parse_primary_spec(ts) matches Ok((e, rest)) ==> valid_expr(e) && valid_tokens(rest),
    decreases ts.len(), 1int,
{
    if ts.len() > 0 {
        lemma_valid_tokens_skip(ts, 1);
        assert(ts.skip(1) =~= ts.drop_first());
        assert(valid_token(ts[0]));
        match ts[0] {
            TokenView::LeftParen => {
                lemma_parse_expr_valid(ts.drop_first(), None);
                if let Ok((inner, rest)) = parse_expr_spec(ts.drop_first(), None) {
                    if rest.len() > 0 {
                        lemma_valid_tokens_skip(rest, 1);
                        assert(rest.skip(1) =~= rest.drop_first());
                    }
                }
            },
            TokenView::Ident(name) => {
                if ts.len() > 1 && ts[1] is LeftParen {
                    lemma_valid_tokens_skip(ts, 2);
                    lemma_parse_expr_valid(ts.skip(2), None);
                    if let Ok((first, rest)) = parse_expr_spec(ts.skip(2), None) {
                        if rest.len() < ts.len() {
                            lemma_parse_more_args_valid(seq![first], rest);
                        }
                    }
                }
            },
            _ => {},
        }
    }
}

/// The arguments that are parsed from valid tokens are valid, and so are
/// the tokens that follow them.
pub proof fn lemma_parse_more_args_valid(args: Seq<ExprView>, ts: Seq<TokenView>)
    requires
        valid_tokens(ts),
        args.len() >= 1,
        forall|i: int| 0 <= i < args.len() ==> valid_expr(#[trigger] args[i]),
    ensures
        parse_more_args_spec(args, ts) matches Ok((all, rest)) ==> {
            &&& all.len() >= 1
            &&& forall|i: int| 0 <= i < all.len() ==> valid_expr(#[trigger] all[i])
            &&& valid_tokens(rest)
        },
    decreases ts.len(), 0int,
{
    if ts.len() > 0 {
        lemma_valid_tokens_skip(ts, 1);
        assert(ts.skip(1) =~= ts.drop_first());
        if ts[0] is Comma {
            lemma_parse_expr_valid(ts.drop_first(), None);
            if let Ok((arg, rest)) = parse_expr_spec(ts.drop_first(), None) {
                if rest.len() < ts.len() {
                    let longer = args.push(arg);
                    assert forall|i: int| 0 <= i < longer.len() implies valid_expr(
                        #[trigger] longer[i],
                    ) by {
                        if i < args.len() {
                            assert(longer[i] == args[i]);
                        }
                    }
                    lemma_parse_more_args_valid(longer, rest);
                }
            }
        }
    }
}

/// What is folded from a valid expression and valid tokens is valid, and so
/// are the tokens that follow it.
pub proof fn lemma_parse_operators_valid(left: ExprView, ts: Seq<TokenView>, min: Option<BinaryOp>)
    requires
        valid_expr(left),
        valid_tokens(ts),
    ensures
        parse_operators_spec(left, ts, min) matches Ok((e, rest)) ==> valid_expr(e)
            && valid_tokens(rest),
    decreases ts.len(), 0int,
{
    if ts.len() > 0 && operator_of(ts[0]) is Some {
        let op = operator_of(ts[0])->0;
        lemma_valid_tokens_skip(ts, 1);
        assert(ts.skip(1) =~= ts.drop_first());
        lemma_parse_expr_valid(ts.drop_first(), Some(op));
        if let Ok((right, rest)) = parse_expr_spec(ts.drop_first(), Some(op)) {
            let folded = ExprView::BinOp { op, left: Box::new(left), right: Box::new(right) };
            if rest.len() < ts.len() {
                lemma_parse_operators_valid(folded, rest, min);
            }
        }
    }
}

/// The parameters that are parsed from valid tokens are names.
proof fn lemma_parse_params_valid(params: Seq<Seq<char>>, ts: Seq<TokenView>)
    requires
        valid_tokens(ts),
        params.len() >= 1,
        forall|i: int| 0 <= i < params.len() ==> is_name(#[trigger] params[i]),
    ensures
        parse_params_spec(params, ts) matches Ok(all) ==> {
            &&& all.len() >= 1
            &&& forall|i: int| 0 <= i < all.len() ==> is_name(#[trigger] all[i])
        },
    decreases ts.len(),
{
    if ts.len() > 1 && ts[0] is Comma {
        assert(valid_token(ts[1]));
        if let TokenView::Ident(name) = ts[1] {
            let longer = params.push(name);
            assert forall|i: int| 0 <= i < longer.len() implies is_name(#[trigger] longer[i]) by {
                if i < params.len() {
                    assert(longer[i] == params[i]);
                }
            }
            lemma_valid_tokens_skip(ts, 2);
            lemma_parse_params_valid(longer, ts.skip(2));
        }
    }
}

/// The head that is parsed from valid tokens holds names, and a function
/// has a parameter.
proof fn lemma_parse_head_valid(head: Seq<TokenView>)
    requires
        valid_tokens(head),
    ensures
        parse_head_spec(head) matches Ok((name, params)) ==> {
            &&& is_name(name)
            &&& params matches Some(all) ==> {
                &&& all.len() >= 1
                &&& forall|i: int| 0 <= i < all.len() ==> is_name(#[trigger] all[i])
            }
        },
{
    if head.len() > 0 {
        assert(valid_token(head[0]));
        if head.len() > 2 {
            assert(valid_token(head[2]));
            if let TokenView::Ident(first) = head[2] {
                lemma_valid_tokens_skip(head, 3);
                lemma_parse_params_valid(seq![first], head.skip(3));
            }
        }
    }
}

/// Valid tokens without the newlines that they start with are valid.
proof fn lemma_skip_newlines_valid(ts: Seq<TokenView>)
    requires
        valid_tokens(ts),
    ensures
        valid_tokens(skip_newlines(ts)),
    decreases ts.len(),
{
    if ts.len() > 0 && ts[0] is Newline {
        lemma_valid_tokens_skip(ts, 1);
        assert(ts.skip(1) =~= ts.drop_first());
        lemma_skip_newlines_valid(ts.drop_first());
    }
}

/// Whether every item of `items` is valid.
pub open spec fn valid_items(items: Seq<ItemView>) -> bool {
    forall|i: int| 0 <= i < items.len() ==> valid_item(#[trigger] items[i])
}

/// The items that are parsed from valid tokens are valid.
pub proof fn lemma_parse_items_valid(ts: Seq<TokenView>)
    requires
        valid_tokens(ts),
    ensures
        parse_items_spec(ts) matches Ok(items) ==> valid_items(items),
    decreases ts.len(),
{
    if ts.len() > 0 {
        lemma_assign_position_bounds(ts);
        let body_tokens = match assign_position(ts) {
            Some(index) => ts.skip(index + 1),
            None => ts,
        };
        if let Some(index) = assign_position(ts) {
            lemma_valid_tokens_take(ts, index);
            lemma_valid_tokens_skip(ts, index + 1);
            lemma_parse_head_valid(ts.take(index));
        }
        lemma_parse_expr_valid(body_tokens, None);
        lemma_parse_expr_progress(body_tokens, None);
        if let Ok((body, rest)) = parse_expr_spec(body_tokens, None) {
            if rest.len() > 0 && rest[0] is Newline {
                lemma_skip_newlines_len(rest);
                lemma_skip_newlines_valid(rest);
                lemma_parse_items_valid(skip_newlines(rest));
                if let Ok(items) = parse_items_spec(ts) {
                    let more = parse_items_spec(skip_newlines(rest))->Ok_0;
                    assert(items == seq![items[0]] + more);
                    assert forall|i: int| 0 <= i < items.len() implies valid_item(
                        #[trigger] items[i],
                    ) by {
                        if i > 0 {
                            assert(items[i] == more[i - 1]);
                        }
                    }
                }
            }
        }
    }
}

/// Whatever is parsed can be written: every item of a program that the
/// parser accepts is valid.
pub proof fn lemma_parsed_is_valid(s: Seq<char>)
    ensures
        parse_spec(s) matches Ok(items) ==> valid_items(items),
{
    lemma_lex_from_valid(s, 0);
    if let Ok(tokens) = lex_spec(s) {
        lemma_parse_items_valid(tokens);
    }
}

} // verus!
