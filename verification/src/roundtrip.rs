//! Writing out and reading back: the text of an expression, of an item and
//! of a program is read back as what was written.

pub mod lexing;
pub mod reading;
pub mod written;

use crate::ast::{ExprView, ItemView};
use crate::format::expr_text;
use crate::lex::{lex_from, lex_spec, LexError, TokenView};
use crate::parse::{parse_spec, ParseErrorView};
use crate::roundtrip::lexing::{lemma_lex_expr, lemma_lex_program};
use crate::roundtrip::reading::{
    lemma_parse_expr, lemma_parse_program, lemma_plain_has_no_assignment,
};
use crate::roundtrip::written::{
    expr_tokens, lemma_expr_text_is_ascii, lemma_expr_tokens_plain, lemma_program_text_is_ascii,
    lemma_tokens_start, program_text, program_tokens,
};
use crate::valid::{lemma_parsed_is_valid, valid_expr, valid_items};
use vstd::prelude::*;
use vstd::utf8::is_ascii_chars;

verus! {

/// Writing an expression out and reading the text back gives the
/// expression, and nothing else: for every expression whose literals are
/// numeric literals, whose names are names, and whose calls have arguments,
/// its text is ASCII text, and the program that this text holds is that one
/// expression.
pub proof fn lemma_round_trip(e: ExprView)
    requires
        valid_expr(e),
    ensures
        is_ascii_chars(expr_text(e)),
        lex_spec(expr_text(e)) == Ok::<_, LexError>(expr_tokens(e)),
        parse_spec(expr_text(e)) == Ok::<_, ParseErrorView>(seq![ItemView::Expression(e)]),
{
    let s = expr_text(e);
    let tokens = expr_tokens(e);
    let none = Seq::<TokenView>::empty();
    lemma_expr_text_is_ascii(e);
    assert(s.subrange(0, s.len() as int) =~= s);
    lemma_lex_expr(e, s, 0);
    assert(lex_from(s, s.len() as int) == Ok::<_, LexError>(none));
    assert(tokens + none =~= tokens);
    lemma_tokens_start(e);
    lemma_expr_tokens_plain(e);
    lemma_plain_has_no_assignment(tokens);
    lemma_parse_expr(e, none, None);
}

/// Writing a program out and reading the text back gives the program: for
/// all items that are valid, the text of each on a line of its own is ASCII
/// text, and the program that this text holds is made of these items.
pub proof fn lemma_program_round_trip(items: Seq<ItemView>)
    requires
        valid_items(items),
    ensures
        is_ascii_chars(program_text(items)),
        lex_spec(program_text(items)) == Ok::<_, LexError>(program_tokens(items)),
        parse_spec(program_text(items)) == Ok::<_, ParseErrorView>(items),
{
    let s = program_text(items);
    lemma_program_text_is_ascii(items);
    assert(s.subrange(0, s.len() as int) =~= s);
    lemma_lex_program(items, s, 0);
    lemma_parse_program(items);
}

/// What was read can be written and read again: each program that the
/// parser accepts is made of valid items, and the text of these items is
/// read back as the same program.
pub proof fn lemma_parsed_round_trip(s: Seq<char>)
    ensures
        parse_spec(s) matches Ok(items) ==> valid_items(items) && parse_spec(program_text(items))
            == Ok::<_, ParseErrorView>(items),
{
    lemma_parsed_is_valid(s);
    if let Ok(items) = parse_spec(s) {
        lemma_program_round_trip(items);
    }
}

} // verus!
