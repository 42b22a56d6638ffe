//! The lexer reads the text of what is written as its tokens.

use crate::ast::{ExprView, ItemView};
use crate::format::{
    args_text, expr_text, is_atom, item_text, names_text, operator_char, parenthesized, sign_char,
};
use crate::lex::{
    before, lemma_run_end_bounds, lex_from, number_end, run_end, token_at, CharClass, LexError,
    TokenView,
};
use crate::roundtrip::written::{
    args_tokens, body_of, expr_tokens, head_tokens, in_parens, item_tokens, operand_text,
    operand_tokens, operator_token, params_tokens, program_text, program_tokens, sign_token,
    symbol_token,
};
use crate::valid::{
    is_name, is_number, lemma_number_chars, valid_expr, valid_item, valid_items,
};
use vstd::prelude::*;

verus! {

/// Whether `piece` stands in `s` at `pos`.
pub open spec fn occurs(s: Seq<char>, pos: int, piece: Seq<char>) -> bool {
    0 <= pos && pos + piece.len() <= s.len() && s.subrange(pos, pos + piece.len()) == piece
}

/// Whether a name or a literal that ends before `pos` ends there for the
/// lexer too: the text ends, or goes on with no letter, digit or dot.
pub open spec fn stops(s: Seq<char>, pos: int) -> bool {
    pos == s.len() || (0 <= pos < s.len() && !CharClass::Alphabetic.holds(s[pos])
        && !CharClass::Digit.holds(s[pos]) && s[pos] != '.')
}

/// Whether the lexer reads `tokens` from `from` to `to`.
pub open spec fn lexes_to(s: Seq<char>, from: int, to: int, tokens: Seq<TokenView>) -> bool {
    lex_from(s, from) == before(tokens, lex_from(s, to))
}

/// Where two pieces stand one after the other, each of them stands.
pub(crate) proof fn lemma_occurs_split(s: Seq<char>, pos: int, first: Seq<char>, second: Seq<char>)
    requires
        occurs(s, pos, first + second),
    ensures
        occurs(s, pos, first),
        occurs(s, pos + first.len(), second),
{
    let whole = first + second;
    let found = s.subrange(pos, pos + whole.len());
    assert forall|i: int| 0 <= i < first.len() implies s[pos + i] == first[i] by {
        assert(found[i] == whole[i]);
    }
    assert forall|i: int| 0 <= i < second.len() implies s[pos + first.len() + i] == second[i] by {
        assert(found[first.len() + i] == whole[first.len() + i]);
    }
    assert(s.subrange(pos, pos + first.len()) =~= first);
    assert(s.subrange(pos + first.len(), pos + first.len() + second.len()) =~= second);
}

/// Where a piece stands, each of its characters stands.
pub(crate) proof fn lemma_occurs_char(s: Seq<char>, pos: int, piece: Seq<char>, index: int)
    requires
        occurs(s, pos, piece),
        0 <= index < piece.len(),
    ensures
        s[pos + index] == piece[index],
{
    assert(s.subrange(pos, pos + piece.len())[index] == piece[index]);
}

/// Reading one stretch of tokens and then another reads both.
pub(crate) proof fn lemma_lexes_compose(
    s: Seq<char>,
    from: int,
    middle: int,
    to: int,
    first: Seq<TokenView>,
    second: Seq<TokenView>,
)
    requires
        lexes_to(s, from, middle, first),
        lexes_to(s, middle, to, second),
    ensures
        lexes_to(s, from, to, first + second),
{
    match lex_from(s, to) {
        Ok(more) => {
            assert(first + (second + more) =~= (first + second) + more);
        },
        Err(_) => {},
    }
}

/// A blank is skipped.
pub(crate) proof fn lemma_lexes_blank(s: Seq<char>, pos: int)
    requires
        0 <= pos < s.len(),
        s[pos] == ' ',
    ensures
        lexes_to(s, pos, pos + 1, Seq::empty()),
{
    assert(run_end(s, pos, CharClass::Blank) == run_end(s, pos + 1, CharClass::Blank));
    match lex_from(s, pos + 1) {
        Ok(more) => {
            assert(Seq::<TokenView>::empty() + more =~= more);
        },
        Err(_) => {},
    }
}

/// A token that starts at `pos` is read there.
pub(crate) proof fn lemma_lexes_token(s: Seq<char>, pos: int, token: TokenView, end: int)
    requires
        0 <= pos < s.len(),
        !CharClass::Blank.holds(s[pos]),
        token_at(s, pos) == Ok::<_, LexError>((token, end)),
    ensures
        lexes_to(s, pos, end, seq![token]),
{
    assert(run_end(s, pos, CharClass::Blank) == pos);
}

/// A stretch of characters of a class, with none of the class after it, is
/// a run.
pub(crate) proof fn lemma_run_end_is(s: Seq<char>, pos: int, end: int, class: CharClass)
    requires
        0 <= pos <= end <= s.len(),
        forall|i: int| pos <= i < end ==> class.holds(#[trigger] s[i]),
        end == s.len() || !class.holds(s[end]),
    ensures
        run_end(s, pos, class) == end,
    decreases end - pos,
{
    if pos < end {
        lemma_run_end_is(s, pos + 1, end, class);
    }
}

/// A run within a piece is the same run in the text, where it ends within
/// the piece or the text goes on with no character of the class.
pub(crate) proof fn lemma_run_end_within(s: Seq<char>, pos: int, piece: Seq<char>, index: int, class: CharClass)
    requires
        occurs(s, pos, piece),
        0 <= index <= piece.len(),
        run_end(piece, index, class) < piece.len() || pos + piece.len() == s.len() || !class.holds(
            s[pos + piece.len()],
        ),
    ensures
        run_end(s, pos + index, class) == pos + run_end(piece, index, class),
    decreases piece.len() - index,
{
    if index < piece.len() {
        lemma_occurs_char(s, pos, piece, index);
        if class.holds(piece[index]) {
            lemma_run_end_within(s, pos, piece, index + 1, class);
        }
    }
}

/// A name that stands at `pos`, with no letter after it, is read as an
/// identifier.
pub(crate) proof fn lemma_lexes_name(s: Seq<char>, pos: int, name: Seq<char>)
    requires
        is_name(name),
        occurs(s, pos, name),
        stops(s, pos + name.len()),
    ensures
        lexes_to(s, pos, pos + name.len(), seq![TokenView::Ident(name)]),
{
    let end = pos + name.len();
    assert forall|i: int| pos <= i < end implies CharClass::Alphabetic.holds(#[trigger] s[i]) by {
        lemma_occurs_char(s, pos, name, i - pos);
    }
    lemma_run_end_is(s, pos, end, CharClass::Alphabetic);
    assert(CharClass::Alphabetic.holds(s[pos]));
    lemma_lexes_token(s, pos, TokenView::Ident(name), end);
}

/// A numeric literal that stands at `pos`, with no digit or dot after it,
/// is read as a literal.
pub(crate) proof fn lemma_lexes_number(s: Seq<char>, pos: int, text: Seq<char>)
    requires
        is_number(text),
        occurs(s, pos, text),
        stops(s, pos + text.len()),
    ensures
        lexes_to(s, pos, pos + text.len(), seq![TokenView::NumLit(text)]),
{
    let end = pos + text.len();
    let whole = run_end(text, 0, CharClass::Digit);
    lemma_number_chars(text);
    lemma_occurs_char(s, pos, text, 0);
    lemma_run_end_bounds(text, 0, CharClass::Digit);
    lemma_run_end_within(s, pos, text, 0, CharClass::Digit);
    if whole > 0 {
        if whole < text.len() && text[whole] == '.' {
            lemma_occurs_char(s, pos, text, whole);
            lemma_run_end_within(s, pos, text, whole + 1, CharClass::Digit);
        }
    } else {
        lemma_run_end_within(s, pos, text, 1, CharClass::Digit);
    }
    assert(number_end(s, pos) == end);
    lemma_lexes_token(s, pos, TokenView::NumLit(text), end);
}

/// A character of punctuation is read as its token.
pub(crate) proof fn lemma_lexes_symbol(s: Seq<char>, pos: int, c: char)
    requires
        0 <= pos < s.len(),
        s[pos] == c,
        c == '(' || c == ')' || c == ',' || c == '+' || c == '-' || c == '*' || c == '/',
    ensures
        lexes_to(s, pos, pos + 1, seq![symbol_token(c)]),
{
    lemma_lexes_token(s, pos, symbol_token(c), pos + 1);
}

/// A piece between parentheses is read as its tokens between parentheses,
/// where it is read as its tokens up to the closing parenthesis.
pub(crate) proof fn lemma_lexes_in_parens(s: Seq<char>, pos: int, text: Seq<char>, tokens: Seq<TokenView>)
    requires
        occurs(s, pos, parenthesized(text)),
        lexes_to(s, pos + 1, pos + 1 + text.len(), tokens),
    ensures
        lexes_to(s, pos, pos + text.len() + 2, in_parens(tokens)),
{
    let opening = seq!['('];
    let closing = seq![')'];
    lemma_occurs_split(s, pos, opening + text, closing);
    lemma_occurs_split(s, pos, opening, text);
    lemma_occurs_char(s, pos, opening, 0);
    lemma_occurs_char(s, pos + 1 + text.len(), closing, 0);
    lemma_lexes_symbol(s, pos, '(');
    lemma_lexes_symbol(s, pos + 1 + text.len(), ')');
    lemma_lexes_compose(s, pos, pos + 1, pos + 1 + text.len(), seq![TokenView::LeftParen], tokens);
    lemma_lexes_compose(
        s,
        pos,
        pos + 1 + text.len(),
        pos + text.len() + 2,
        seq![TokenView::LeftParen] + tokens,
        seq![TokenView::RightParen],
    );
}

/// The text of an expression is read as its tokens, where a name or a
/// literal at its end ends there for the lexer too.
pub proof fn lemma_lex_expr(e: ExprView, s: Seq<char>, pos: int)
    requires
        valid_expr(e),
        occurs(s, pos, expr_text(e)),
        stops(s, pos + expr_text(e).len()),
    ensures
        lexes_to(s, pos, pos + expr_text(e).len(), expr_tokens(e)),
    decreases e, 1nat,
{
    match e {
        ExprView::Lit(text) => {
            lemma_lexes_number(s, pos, text);
        },
        ExprView::Variable(name) => {
            lemma_lexes_name(s, pos, name);
        },
        ExprView::Call { func, args } => {
            lemma_lex_call(e, s, pos);
        },
        ExprView::UnOp { op, arg } => {
            lemma_lex_signed(e, s, pos);
        },
        ExprView::BinOp { op, left, right } => {
            lemma_lex_binary(e, s, pos);
        },
    }
}

/// The text of a call is read as its tokens.
pub(crate) proof fn lemma_lex_call(e: ExprView, s: Seq<char>, pos: int)
    requires
        e is Call,
        valid_expr(e),
        occurs(s, pos, expr_text(e)),
        stops(s, pos + expr_text(e).len()),
    ensures
        lexes_to(s, pos, pos + expr_text(e).len(), expr_tokens(e)),
    decreases e, 0nat,
{
    let func = e->func;
    let args = e->args;
    let end = pos + expr_text(e).len();
    let inner = args_text(args, args.len());
    let open = pos + func.len();
    assert(expr_text(e) == func + parenthesized(inner));
    lemma_occurs_split(s, pos, func, parenthesized(inner));
    lemma_occurs_split(s, open, seq!['('] + inner, seq![')']);
    lemma_occurs_split(s, open, seq!['('], inner);
    lemma_occurs_char(s, open, seq!['('], 0);
    lemma_occurs_char(s, open + 1 + inner.len(), seq![')'], 0);
    lemma_lexes_name(s, pos, func);
    lemma_lex_args(args, args.len(), s, open + 1);
    lemma_lexes_in_parens(s, open, inner, args_tokens(args, args.len()));
    lemma_lexes_compose(
        s,
        pos,
        open,
        end,
        seq![TokenView::Ident(func)],
        in_parens(args_tokens(args, args.len())),
    );
}

/// The text of an expression under a sign is read as its tokens.
pub(crate) proof fn lemma_lex_signed(e: ExprView, s: Seq<char>, pos: int)
    requires
        e is UnOp,
        valid_expr(e),
        occurs(s, pos, expr_text(e)),
        stops(s, pos + expr_text(e).len()),
    ensures
        lexes_to(s, pos, pos + expr_text(e).len(), expr_tokens(e)),
    decreases e, 0nat,
{
    let op = e->UnOp_op;
    let arg = *e->arg;
    let end = pos + expr_text(e).len();
    let inner = expr_text(arg);
    let tail = if arg is BinOp {
        parenthesized(inner)
    } else {
        inner
    };
    assert(expr_text(e) == seq![sign_char(op)] + tail);
    lemma_occurs_split(s, pos, seq![sign_char(op)], tail);
    lemma_occurs_char(s, pos, seq![sign_char(op)], 0);
    lemma_lexes_symbol(s, pos, sign_char(op));
    if arg is BinOp {
        lemma_occurs_split(s, pos + 1, seq!['('] + inner, seq![')']);
        lemma_occurs_split(s, pos + 1, seq!['('], inner);
        lemma_occurs_char(s, pos + 2 + inner.len(), seq![')'], 0);
        lemma_lex_expr(arg, s, pos + 2);
        lemma_lexes_in_parens(s, pos + 1, inner, expr_tokens(arg));
        lemma_lexes_compose(
            s,
            pos,
            pos + 1,
            end,
            seq![sign_token(op)],
            in_parens(expr_tokens(arg)),
        );
    } else {
        lemma_lex_expr(arg, s, pos + 1);
        lemma_lexes_compose(s, pos, pos + 1, end, seq![sign_token(op)], expr_tokens(arg));
    }
}

/// The text of a binary operation is read as its tokens.
pub(crate) proof fn lemma_lex_binary(e: ExprView, s: Seq<char>, pos: int)
    requires
        e is BinOp,
        valid_expr(e),
        occurs(s, pos, expr_text(e)),
        stops(s, pos + expr_text(e).len()),
    ensures
        lexes_to(s, pos, pos + expr_text(e).len(), expr_tokens(e)),
    decreases e, 0nat,
{
    let op = e->BinOp_op;
    let left = *e->left;
    let right = *e->right;
    let end = pos + expr_text(e).len();
    let first = operand_text(left);
    let second = operand_text(right);
    let middle = seq![' ', operator_char(op), ' '];
    let gap = pos + first.len();
    assert(expr_text(e) == first + middle + second);
    lemma_occurs_split(s, pos, first + middle, second);
    lemma_occurs_split(s, pos, first, middle);
    lemma_occurs_char(s, gap, middle, 0);
    lemma_occurs_char(s, gap, middle, 1);
    lemma_occurs_char(s, gap, middle, 2);
    lemma_lex_operand(left, s, pos);
    lemma_lexes_blank(s, gap);
    lemma_lexes_symbol(s, gap + 1, operator_char(op));
    lemma_lexes_blank(s, gap + 2);
    lemma_lex_operand(right, s, gap + 3);
    let none = Seq::<TokenView>::empty();
    let operator = seq![operator_token(op)];
    lemma_lexes_compose(s, pos, gap, gap + 1, operand_tokens(left), none);
    lemma_lexes_compose(s, pos, gap + 1, gap + 2, operand_tokens(left) + none, operator);
    lemma_lexes_compose(s, pos, gap + 2, gap + 3, operand_tokens(left) + none + operator, none);
    lemma_lexes_compose(
        s,
        pos,
        gap + 3,
        end,
        operand_tokens(left) + none + operator + none,
        operand_tokens(right),
    );
    assert(operand_tokens(left) + none + operator + none + operand_tokens(right) =~= expr_tokens(
        e,
    ));
}

/// The text of an expression as an operand is read as its tokens as an
/// operand.
pub(crate) proof fn lemma_lex_operand(e: ExprView, s: Seq<char>, pos: int)
    requires
        valid_expr(e),
        occurs(s, pos, operand_text(e)),
        stops(s, pos + operand_text(e).len()),
    ensures
        lexes_to(s, pos, pos + operand_text(e).len(), operand_tokens(e)),
    decreases e, 2nat,
{
    if is_atom(e) {
        lemma_lex_expr(e, s, pos);
    } else {
        let inner = expr_text(e);
        lemma_occurs_split(s, pos, seq!['('] + inner, seq![')']);
        lemma_occurs_split(s, pos, seq!['('], inner);
        lemma_occurs_char(s, pos + 1 + inner.len(), seq![')'], 0);
        lemma_lex_expr(e, s, pos + 1);
        lemma_lexes_in_parens(s, pos, inner, expr_tokens(e));
    }
}

/// The text of some arguments is read as their tokens.
pub(crate) proof fn lemma_lex_args(args: Seq<ExprView>, count: nat, s: Seq<char>, pos: int)
    requires
        1 <= count <= args.len(),
        forall|i: int| 0 <= i < args.len() ==> valid_expr(#[trigger] args[i]),
        occurs(s, pos, args_text(args, count)),
        stops(s, pos + args_text(args, count).len()),
    ensures
        lexes_to(s, pos, pos + args_text(args, count).len(), args_tokens(args, count)),
    decreases args, count,
{
    if count == 1 {
        lemma_lex_expr(args[0], s, pos);
    } else {
        let before_last = args_text(args, (count - 1) as nat);
        let comma = seq![',', ' '];
        let last = expr_text(args[count - 1]);
        lemma_occurs_split(s, pos, before_last + comma, last);
        lemma_occurs_split(s, pos, before_last, comma);
        let gap = pos + before_last.len();
        lemma_occurs_char(s, gap, comma, 0);
        lemma_occurs_char(s, gap, comma, 1);
        lemma_lex_args(args, (count - 1) as nat, s, pos);
        lemma_lexes_symbol(s, gap, ',');
        lemma_lexes_blank(s, gap + 1);
        lemma_lex_expr(args[count - 1], s, gap + 2);
        let earlier = args_tokens(args, (count - 1) as nat);
        let separator = seq![TokenView::Comma];
        let none = Seq::<TokenView>::empty();
        lemma_lexes_compose(s, pos, gap, gap + 1, earlier, separator);
        lemma_lexes_compose(s, pos, gap + 1, gap + 2, earlier + separator, none);
        lemma_lexes_compose(
            s,
            pos,
            gap + 2,
            pos + args_text(args, count).len(),
            earlier + separator + none,
            expr_tokens(args[count - 1]),
        );
        assert(earlier + separator + none + expr_tokens(args[count - 1]) =~= args_tokens(
            args,
            count,
        ));
    }
}

/// The text of some parameters is read as their tokens.
pub(crate) proof fn lemma_lex_params(params: Seq<Seq<char>>, count: nat, s: Seq<char>, pos: int)
    requires
        1 <= count <= params.len(),
        forall|i: int| 0 <= i < params.len() ==> is_name(#[trigger] params[i]),
        occurs(s, pos, names_text(params, count)),
        stops(s, pos + names_text(params, count).len()),
    ensures
        lexes_to(s, pos, pos + names_text(params, count).len(), params_tokens(params, count)),
    decreases count,
{
    if count == 1 {
        lemma_lexes_name(s, pos, params[0]);
    } else {
        let before_last = names_text(params, (count - 1) as nat);
        let comma = seq![',', ' '];
        let last = params[count - 1];
        lemma_occurs_split(s, pos, before_last + comma, last);
        lemma_occurs_split(s, pos, before_last, comma);
        let gap = pos + before_last.len();
        lemma_occurs_char(s, gap, comma, 0);
        lemma_occurs_char(s, gap, comma, 1);
        lemma_lex_params(params, (count - 1) as nat, s, pos);
        lemma_lexes_symbol(s, gap, ',');
        lemma_lexes_blank(s, gap + 1);
        lemma_lexes_name(s, gap + 2, last);
        let earlier = params_tokens(params, (count - 1) as nat);
        let separator = seq![TokenView::Comma];
        let none = Seq::<TokenView>::empty();
        lemma_lexes_compose(s, pos, gap, gap + 1, earlier, separator);
        lemma_lexes_compose(s, pos, gap + 1, gap + 2, earlier + separator, none);
        lemma_lexes_compose(
            s,
            pos,
            gap + 2,
            pos + names_text(params, count).len(),
            earlier + separator + none,
            seq![TokenView::Ident(last)],
        );
        assert(earlier + separator + none + seq![TokenView::Ident(last)] =~= params_tokens(
            params,
            count,
        ));
    }
}

/// ` := ` is read as the token `:=`.
pub(crate) proof fn lemma_lexes_assign(s: Seq<char>, pos: int)
    requires
        occurs(s, pos, seq![' ', ':', '=', ' ']),
    ensures
        lexes_to(s, pos, pos + 4, seq![TokenView::Assign]),
{
    let piece = seq![' ', ':', '=', ' '];
    lemma_occurs_char(s, pos, piece, 0);
    lemma_occurs_char(s, pos, piece, 1);
    lemma_occurs_char(s, pos, piece, 2);
    lemma_occurs_char(s, pos, piece, 3);
    let none = Seq::<TokenView>::empty();
    let assign = seq![TokenView::Assign];
    lemma_lexes_blank(s, pos);
    lemma_lexes_token(s, pos + 1, TokenView::Assign, pos + 3);
    lemma_lexes_blank(s, pos + 3);
    lemma_lexes_compose(s, pos, pos + 1, pos + 3, none, assign);
    lemma_lexes_compose(s, pos, pos + 3, pos + 4, none + assign, none);
    assert(none + assign + none =~= assign);
}

/// The text of what an item holds before its ` := ` is read as its tokens.
pub(crate) proof fn lemma_lex_head(item: ItemView, s: Seq<char>, pos: int, len: int)
    requires
        valid_item(item),
        !(item is Expression),
        match item {
            ItemView::FunctionDef { name, args, body } => {
                &&& len == (name + parenthesized(names_text(args, args.len()))).len()
                &&& occurs(s, pos, name + parenthesized(names_text(args, args.len())))
            },
            ItemView::Assignment { name, body } => len == name.len() && occurs(s, pos, name),
            _ => true,
        },
        stops(s, pos + len),
    ensures
        lexes_to(s, pos, pos + len, head_tokens(item)),
{
    match item {
        ItemView::Assignment { name, body } => {
            lemma_lexes_name(s, pos, name);
        },
        ItemView::FunctionDef { name, args, body } => {
            let inner = names_text(args, args.len());
            let open = pos + name.len();
            lemma_occurs_split(s, pos, name, parenthesized(inner));
            lemma_occurs_split(s, open, seq!['('] + inner, seq![')']);
            lemma_occurs_split(s, open, seq!['('], inner);
            lemma_occurs_char(s, open, seq!['('], 0);
            lemma_occurs_char(s, open + 1 + inner.len(), seq![')'], 0);
            lemma_lexes_name(s, pos, name);
            lemma_lex_params(args, args.len(), s, open + 1);
            lemma_lexes_in_parens(s, open, inner, params_tokens(args, args.len()));
            lemma_lexes_compose(
                s,
                pos,
                open,
                pos + len,
                seq![TokenView::Ident(name)],
                in_parens(params_tokens(args, args.len())),
            );
        },
        _ => {},
    }
}

/// The text of an item is read as its tokens.
pub proof fn lemma_lex_item(item: ItemView, s: Seq<char>, pos: int)
    requires
        valid_item(item),
        occurs(s, pos, item_text(item)),
        stops(s, pos + item_text(item).len()),
    ensures
        lexes_to(s, pos, pos + item_text(item).len(), item_tokens(item)),
{
    let body = body_of(item);
    let end = pos + item_text(item).len();
    if item is Expression {
        lemma_lex_expr(body, s, pos);
    } else {
        let head = match item {
            ItemView::FunctionDef { name, args, body } => name + parenthesized(
                names_text(args, args.len()),
            ),
            ItemView::Assignment { name, body } => name,
            _ => Seq::empty(),
        };
        let assign = seq![' ', ':', '=', ' '];
        assert(item_text(item) == head + assign + expr_text(body));
        lemma_occurs_split(s, pos, head + assign, expr_text(body));
        lemma_occurs_split(s, pos, head, assign);
        let gap = pos + head.len();
        lemma_occurs_char(s, gap, assign, 0);
        lemma_lex_head(item, s, pos, head.len() as int);
        lemma_lexes_assign(s, gap);
        lemma_lex_expr(body, s, gap + 4);
        lemma_lexes_compose(s, pos, gap, gap + 4, head_tokens(item), seq![TokenView::Assign]);
        lemma_lexes_compose(
            s,
            pos,
            gap + 4,
            end,
            head_tokens(item) + seq![TokenView::Assign],
            expr_tokens(body),
        );
    }
}

/// The text of a program is read as its tokens.
pub proof fn lemma_lex_program(items: Seq<ItemView>, s: Seq<char>, pos: int)
    requires
        valid_items(items),
        occurs(s, pos, program_text(items)),
        pos + program_text(items).len() == s.len(),
    ensures
        lex_from(s, pos) == Ok::<_, LexError>(program_tokens(items)),
    decreases items.len(),
{
    let none = Seq::<TokenView>::empty();
    if items.len() == 0 {
        assert(run_end(s, pos, CharClass::Blank) == pos);
    } else if items.len() == 1 {
        assert(valid_item(items[0]));
        lemma_lex_item(items[0], s, pos);
        assert(lex_from(s, s.len() as int) == Ok::<_, LexError>(none));
        assert(item_tokens(items[0]) + none =~= item_tokens(items[0]));
    } else {
        let first = item_text(items[0]);
        let others = items.drop_first();
        let newline = seq!['\n'];
        assert(valid_item(items[0]));
        assert forall|i: int| 0 <= i < others.len() implies valid_item(#[trigger] others[i]) by {
            assert(others[i] == items[i + 1]);
        }
        lemma_occurs_split(s, pos, first + newline, program_text(others));
        lemma_occurs_split(s, pos, first, newline);
        let gap = pos + first.len();
        lemma_occurs_char(s, gap, newline, 0);
        lemma_lex_item(items[0], s, pos);
        lemma_lexes_token(s, gap, TokenView::Newline, gap + 1);
        lemma_lex_program(others, s, gap + 1);
        lemma_lexes_compose(
            s,
            pos,
            gap,
            gap + 1,
            item_tokens(items[0]),
            seq![TokenView::Newline],
        );
        assert(item_tokens(items[0]) + seq![TokenView::Newline] + program_tokens(others)
            =~= program_tokens(items));
    }
}

} // verus!
