//! The tokens of what is written: those that the text of an expression, of
//! an item and of a program is made of.

use crate::ast::{BinaryOp, ExprView, ItemView, UnaryOp};
use crate::format::{args_text, expr_text, is_atom, item_text, names_text, parenthesized};
use crate::lex::TokenView;
use crate::parse::{operator_of, sign_of};
use crate::valid::{is_name, lemma_number_chars, valid_expr, valid_item, valid_items};
use vstd::prelude::*;
use vstd::utf8::is_ascii_chars;

verus! {

/// The token of a sign.
pub open spec fn sign_token(op: UnaryOp) -> TokenView {
    match op {
        UnaryOp::Negate => TokenView::Minus,
        UnaryOp::Plus => TokenView::Plus,
    }
}

/// The token of a binary operator.
pub open spec fn operator_token(op: BinaryOp) -> TokenView {
    match op {
        BinaryOp::Add => TokenView::Plus,
        BinaryOp::Subtract => TokenView::Minus,
        BinaryOp::DotProduct => TokenView::Cdot,
        BinaryOp::Divide => TokenView::Slash,
    }
}

/// `tokens` between parentheses.
pub open spec fn in_parens(tokens: Seq<TokenView>) -> Seq<TokenView> {
    seq![TokenView::LeftParen] + tokens + seq![TokenView::RightParen]
}

/// The tokens of the text of an expression.
pub open spec fn expr_tokens(e: ExprView) -> Seq<TokenView>
    decreases e, 0nat,
{
    match e {
        ExprView::Lit(text) => seq![TokenView::NumLit(text)],
        ExprView::Variable(name) => seq![TokenView::Ident(name)],
        ExprView::Call { func, args } => seq![TokenView::Ident(func)] + in_parens(
            args_tokens(args, args.len()),
        ),
        ExprView::UnOp { op, arg } => seq![sign_token(op)] + if *arg is BinOp {
            in_parens(expr_tokens(*arg))
        } else {
            expr_tokens(*arg)
        },
        ExprView::BinOp { op, left, right } => (if is_atom(*left) {
            expr_tokens(*left)
        } else {
            in_parens(expr_tokens(*left))
        }) + seq![operator_token(op)] + if is_atom(*right) {
            expr_tokens(*right)
        } else {
            in_parens(expr_tokens(*right))
        },
    }
}

/// The tokens of the first `count` of `args`, with a comma between them.
pub open spec fn args_tokens(args: Seq<ExprView>, count: nat) -> Seq<TokenView>
    decreases args, count,
{
    if count == 0 || count > args.len() {
        Seq::empty()
    } else if count == 1 {
        expr_tokens(args[0])
    } else {
        args_tokens(args, (count - 1) as nat) + seq![TokenView::Comma] + expr_tokens(
            args[count - 1],
        )
    }
}

/// The text of an expression as the operand of a binary operator.
pub open spec fn operand_text(e: ExprView) -> Seq<char> {
    if is_atom(e) {
        expr_text(e)
    } else {
        parenthesized(expr_text(e))
    }
}

/// The tokens of an expression as the operand of a binary operator.
pub open spec fn operand_tokens(e: ExprView) -> Seq<TokenView> {
    if is_atom(e) {
        expr_tokens(e)
    } else {
        in_parens(expr_tokens(e))
    }
}

/// The expression under the signs that `e` starts with.
pub open spec fn unsigned(e: ExprView) -> ExprView
    decreases e,
{
    match e {
        ExprView::UnOp { op, arg } => unsigned(*arg),
        _ => e,
    }
}

/// Tokens that end an expression: none, or a token that is no operator and
/// opens no parenthesis.
pub open spec fn quiet(rest: Seq<TokenView>) -> bool {
    rest.len() == 0 || (operator_of(rest[0]) is None && !(rest[0] is LeftParen))
}

/// The token that an operand starts with: a literal, a name or `(`.
pub open spec fn opens_operand(token: TokenView) -> bool {
    token is NumLit || token is Ident || token is LeftParen
}

/// The tokens of an expression start with a sign or with what opens an
/// operand, and as an operand with the latter.
pub proof fn lemma_tokens_start(e: ExprView)
    requires
        valid_expr(e),
    ensures
        expr_tokens(e).len() > 0,
        opens_operand(expr_tokens(e)[0]) || sign_of(expr_tokens(e)[0]) is Some,
        !(e is UnOp) ==> opens_operand(expr_tokens(e)[0]),
        operand_tokens(e).len() > 0,
        opens_operand(operand_tokens(e)[0]),
    decreases e,
{
    match e {
        ExprView::BinOp { op, left, right } => {
            lemma_tokens_start(*left);
        },
        _ => {},
    }
}

/// The tokens of the arguments from the index `from` on, each after a
/// comma.
pub open spec fn following_args(args: Seq<ExprView>, from: nat) -> Seq<TokenView>
    decreases args.len() - from,
{
    if from >= args.len() {
        Seq::empty()
    } else {
        seq![TokenView::Comma] + expr_tokens(args[from as int]) + following_args(args, from + 1)
    }
}

/// The tokens of some arguments start as those of the first of them.
pub(crate) proof fn lemma_args_tokens_first(args: Seq<ExprView>, count: nat)
    requires
        1 <= count <= args.len(),
    ensures
        args_tokens(args, count).len() >= expr_tokens(args[0]).len(),
        args_tokens(args, count).take(expr_tokens(args[0]).len() as int) == expr_tokens(args[0]),
    decreases count,
{
    if count > 1 {
        lemma_args_tokens_first(args, (count - 1) as nat);
        let shorter = args_tokens(args, (count - 1) as nat);
        let n = expr_tokens(args[0]).len() as int;
        assert(args_tokens(args, count).take(n) =~= shorter.take(n));
    } else {
        assert(args_tokens(args, count).take(expr_tokens(args[0]).len() as int) =~= expr_tokens(
            args[0],
        ));
    }
}

/// The tokens of some arguments start with what opens an expression.
pub(crate) proof fn lemma_args_tokens_start(args: Seq<ExprView>, count: nat)
    requires
        1 <= count <= args.len(),
        forall|i: int| 0 <= i < args.len() ==> valid_expr(#[trigger] args[i]),
    ensures
        args_tokens(args, count).len() > 0,
        !(args_tokens(args, count)[0] is RightParen),
    decreases count,
{
    lemma_tokens_start(args[0]);
    lemma_args_tokens_first(args, count);
    let n = expr_tokens(args[0]).len() as int;
    assert(args_tokens(args, count).take(n)[0] == args_tokens(args, count)[0]);
}

/// The tokens of all arguments are those of the first `count`, and then
/// those of the others, each after a comma.
pub(crate) proof fn lemma_args_tokens_split(args: Seq<ExprView>, count: nat)
    requires
        1 <= count <= args.len(),
    ensures
        args_tokens(args, args.len()) == args_tokens(args, count) + following_args(args, count),
    decreases args.len() - count,
{
    if count < args.len() {
        lemma_args_tokens_split(args, count + 1);
        assert(args_tokens(args, count + 1) + following_args(args, count + 1) =~= args_tokens(
            args,
            count,
        ) + following_args(args, count));
    } else {
        assert(args_tokens(args, count) + following_args(args, count) =~= args_tokens(args, count));
    }
}

/// After an argument stands a comma or the closing parenthesis.
pub(crate) proof fn lemma_following_start(args: Seq<ExprView>, from: nat, closing: Seq<TokenView>)
    requires
        from <= args.len(),
        closing.len() > 0,
        closing[0] is RightParen,
    ensures
        quiet(following_args(args, from) + closing),
{
    if from >= args.len() {
        assert(following_args(args, from) + closing =~= closing);
    }
}

/// The token of a character of punctuation.
pub open spec fn symbol_token(c: char) -> TokenView {
    if c == '(' {
        TokenView::LeftParen
    } else if c == ')' {
        TokenView::RightParen
    } else if c == ',' {
        TokenView::Comma
    } else if c == '+' {
        TokenView::Plus
    } else if c == '-' {
        TokenView::Minus
    } else if c == '*' {
        TokenView::Cdot
    } else {
        TokenView::Slash
    }
}

/// Tokens among which is no `:=` and no newline.
pub open spec fn plain(tokens: Seq<TokenView>) -> bool {
    forall|i: int|
        0 <= i < tokens.len() ==> !(#[trigger] tokens[i] is Assign) && !(tokens[i] is Newline)
}

/// The tokens of an expression hold no `:=` and no newline.
pub(crate) proof fn lemma_expr_tokens_plain(e: ExprView)
    ensures
        plain(expr_tokens(e)),
    decreases e, 0nat,
{
    match e {
        ExprView::Call { func, args } => {
            lemma_args_tokens_plain(args, args.len());
        },
        ExprView::UnOp { op, arg } => {
            lemma_expr_tokens_plain(*arg);
        },
        ExprView::BinOp { op, left, right } => {
            lemma_expr_tokens_plain(*left);
            lemma_expr_tokens_plain(*right);
        },
        _ => {},
    }
}

/// The tokens of some arguments hold no `:=` and no newline.
pub(crate) proof fn lemma_args_tokens_plain(args: Seq<ExprView>, count: nat)
    ensures
        plain(args_tokens(args, count)),
    decreases args, count,
{
    if 1 <= count <= args.len() {
        lemma_expr_tokens_plain(args[count - 1]);
        if count > 1 {
            lemma_args_tokens_plain(args, (count - 1) as nat);
        }
    }
}

/// The text of an expression is ASCII text.
pub(crate) proof fn lemma_expr_text_is_ascii(e: ExprView)
    requires
        valid_expr(e),
    ensures
        is_ascii_chars(expr_text(e)),
        is_ascii_chars(parenthesized(expr_text(e))),
    decreases e, 0nat,
{
    match e {
        ExprView::Lit(text) => {
            lemma_number_chars(text);
        },
        ExprView::Variable(name) => {},
        ExprView::Call { func, args } => {
            lemma_args_text_is_ascii(args, args.len());
        },
        ExprView::UnOp { op, arg } => {
            lemma_expr_text_is_ascii(*arg);
        },
        ExprView::BinOp { op, left, right } => {
            lemma_expr_text_is_ascii(*left);
            lemma_expr_text_is_ascii(*right);
        },
    }
}

/// The text of some arguments is ASCII text.
pub(crate) proof fn lemma_args_text_is_ascii(args: Seq<ExprView>, count: nat)
    requires
        forall|i: int| 0 <= i < args.len() ==> valid_expr(#[trigger] args[i]),
    ensures
        is_ascii_chars(args_text(args, count)),
        is_ascii_chars(parenthesized(args_text(args, count))),
    decreases args, count,
{
    if 1 <= count <= args.len() {
        lemma_expr_text_is_ascii(args[count - 1]);
        if count > 1 {
            lemma_args_text_is_ascii(args, (count - 1) as nat);
        }
    }
}

/// The text of a program: the text of each item, with a newline between
/// one item and the next.
pub open spec fn program_text(items: Seq<ItemView>) -> Seq<char>
    decreases items.len(),
{
    if items.len() == 0 {
        Seq::empty()
    } else if items.len() == 1 {
        item_text(items[0])
    } else {
        item_text(items[0]) + seq!['\n'] + program_text(items.drop_first())
    }
}

/// The tokens of the first `count` of `params`, with a comma between them.
pub open spec fn params_tokens(params: Seq<Seq<char>>, count: nat) -> Seq<TokenView>
    decreases count,
{
    if count == 0 || count > params.len() {
        Seq::empty()
    } else if count == 1 {
        seq![TokenView::Ident(params[0])]
    } else {
        params_tokens(params, (count - 1) as nat) + seq![
            TokenView::Comma,
            TokenView::Ident(params[count - 1]),
        ]
    }
}

/// The tokens of what an item holds before its `:=`.
pub open spec fn head_tokens(item: ItemView) -> Seq<TokenView> {
    match item {
        ItemView::Expression(_) => Seq::empty(),
        ItemView::Assignment { name, body } => seq![TokenView::Ident(name)],
        ItemView::FunctionDef { name, args, body } => seq![TokenView::Ident(name)] + in_parens(
            params_tokens(args, args.len()),
        ),
    }
}

/// The expression of an item.
pub open spec fn body_of(item: ItemView) -> ExprView {
    match item {
        ItemView::Expression(body) => body,
        ItemView::Assignment { name, body } => body,
        ItemView::FunctionDef { name, args, body } => body,
    }
}

/// The tokens of the text of an item.
pub open spec fn item_tokens(item: ItemView) -> Seq<TokenView> {
    if item is Expression {
        expr_tokens(body_of(item))
    } else {
        head_tokens(item) + seq![TokenView::Assign] + expr_tokens(body_of(item))
    }
}

/// The tokens of the text of a program.
pub open spec fn program_tokens(items: Seq<ItemView>) -> Seq<TokenView>
    decreases items.len(),
{
    if items.len() == 0 {
        Seq::empty()
    } else if items.len() == 1 {
        item_tokens(items[0])
    } else {
        item_tokens(items[0]) + seq![TokenView::Newline] + program_tokens(items.drop_first())
    }
}

/// Tokens that hold no `:=` and no newline, put together, hold none.
pub(crate) proof fn lemma_plain_concat(first: Seq<TokenView>, second: Seq<TokenView>)
    requires
        plain(first),
        plain(second),
    ensures
        plain(first + second),
{
    let both = first + second;
    assert forall|i: int| 0 <= i < both.len() implies !(#[trigger] both[i] is Assign) && !(
    both[i] is Newline) by {
        if i < first.len() {
            assert(both[i] == first[i]);
        } else {
            assert(both[i] == second[i - first.len()]);
        }
    }
}

/// The tokens of some parameters hold no `:=` and no newline.
pub(crate) proof fn lemma_params_tokens_plain(params: Seq<Seq<char>>, count: nat)
    ensures
        plain(params_tokens(params, count)),
    decreases count,
{
    if 1 < count <= params.len() {
        lemma_params_tokens_plain(params, (count - 1) as nat);
    }
}

/// The tokens of the parameters from the index `from` on, each after a
/// comma.
pub open spec fn following_params(params: Seq<Seq<char>>, from: nat) -> Seq<TokenView>
    decreases params.len() - from,
{
    if from >= params.len() {
        Seq::empty()
    } else {
        seq![TokenView::Comma, TokenView::Ident(params[from as int])] + following_params(
            params,
            from + 1,
        )
    }
}

/// The tokens of all parameters are those of the first `count`, and then
/// those of the others, each after a comma.
pub(crate) proof fn lemma_params_tokens_split(params: Seq<Seq<char>>, count: nat)
    requires
        1 <= count <= params.len(),
    ensures
        params_tokens(params, params.len()) == params_tokens(params, count) + following_params(
            params,
            count,
        ),
    decreases params.len() - count,
{
    if count < params.len() {
        lemma_params_tokens_split(params, count + 1);
        assert(params_tokens(params, count + 1) + following_params(params, count + 1)
            =~= params_tokens(params, count) + following_params(params, count));
    } else {
        assert(params_tokens(params, count) + following_params(params, count) =~= params_tokens(
            params,
            count,
        ));
    }
}

/// The tokens of an item start with no newline.
pub(crate) proof fn lemma_item_tokens_start(item: ItemView)
    requires
        valid_item(item),
    ensures
        item_tokens(item).len() > 0,
        !(item_tokens(item)[0] is Newline),
{
    lemma_tokens_start(body_of(item));
}

/// The text of some parameters is ASCII text.
pub(crate) proof fn lemma_names_text_is_ascii(params: Seq<Seq<char>>, count: nat)
    requires
        forall|i: int| 0 <= i < params.len() ==> is_name(#[trigger] params[i]),
    ensures
        is_ascii_chars(names_text(params, count)),
        is_ascii_chars(parenthesized(names_text(params, count))),
    decreases count,
{
    if 1 <= count <= params.len() {
        assert(is_name(params[count - 1]));
        if count > 1 {
            lemma_names_text_is_ascii(params, (count - 1) as nat);
        }
    }
}

/// The text of a program is ASCII text.
pub(crate) proof fn lemma_program_text_is_ascii(items: Seq<ItemView>)
    requires
        valid_items(items),
    ensures
        is_ascii_chars(program_text(items)),
    decreases items.len(),
{
    if items.len() > 0 {
        assert(valid_item(items[0]));
        lemma_expr_text_is_ascii(body_of(items[0]));
        match items[0] {
            ItemView::FunctionDef { name, args, body } => {
                lemma_names_text_is_ascii(args, args.len());
            },
            _ => {},
        }
        if items.len() > 1 {
            let others = items.drop_first();
            assert forall|i: int| 0 <= i < others.len() implies valid_item(
                #[trigger] others[i],
            ) by {
                assert(others[i] == items[i + 1]);
            }
            lemma_program_text_is_ascii(others);
        }
    }
}

} // verus!
