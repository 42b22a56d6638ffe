//! The messages of errors.

use crate::format::token_text;
use crate::lex::LexError;
use crate::parse::{ParseError, ParseErrorView};
use crate::run::{EvalError, EvalErrorView};
use vstd::prelude::*;
use vstd::string::*;

verus! {

/// `String::push` appends the character to the end of the string.
#[verifier::external_body]
fn push_char(out: &mut String, c: char)
    ensures
        final(out)@ == old(out)@.push(c),
{
    out.push(c)
}

/// The character of a digit below sixteen.
pub open spec fn digit_char(digit: nat) -> char {
    if digit == 0 {
        '0'
    } else if digit == 1 {
        '1'
    } else if digit == 2 {
        '2'
    } else if digit == 3 {
        '3'
    } else if digit == 4 {
        '4'
    } else if digit == 5 {
        '5'
    } else if digit == 6 {
        '6'
    } else if digit == 7 {
        '7'
    } else if digit == 8 {
        '8'
    } else if digit == 9 {
        '9'
    } else if digit == 10 {
        'a'
    } else if digit == 11 {
        'b'
    } else if digit == 12 {
        'c'
    } else if digit == 13 {
        'd'
    } else if digit == 14 {
        'e'
    } else {
        'f'
    }
}

/// The digits of `n` to the base `base`, without leading zeros.
pub open spec fn digits(n: nat, base: nat) -> Seq<char>
    decreases n,
{
    if base < 2 || n < base {
        seq![digit_char(n)]
    } else {
        proof {
            lemma_quotient_is_less(n, base);
        }
        digits(n / base, base).push(digit_char(n % base))
    }
}

/// A number that is not below the base is more than its quotient by the
/// base.
pub proof fn lemma_quotient_is_less(n: nat, base: nat)
    requires
        2 <= base <= n,
    ensures
        n / base < n,
{
    assert(n / base < n) by (nonlinear_arith)
        requires
            2 <= base <= n,
    ;
}

/// The character of a digit below sixteen.
fn digit(d: usize) -> (c: char)
    requires
        d < 16,
    ensures
        c == digit_char(d as nat),
{
    if d == 0 {
        '0'
    } else if d == 1 {
        '1'
    } else if d == 2 {
        '2'
    } else if d == 3 {
        '3'
    } else if d == 4 {
        '4'
    } else if d == 5 {
        '5'
    } else if d == 6 {
        '6'
    } else if d == 7 {
        '7'
    } else if d == 8 {
        '8'
    } else if d == 9 {
        '9'
    } else if d == 10 {
        'a'
    } else if d == 11 {
        'b'
    } else if d == 12 {
        'c'
    } else if d == 13 {
        'd'
    } else if d == 14 {
        'e'
    } else {
        'f'
    }
}

/// Appends the digits of `n` to the base `base`.
fn write_digits(out: &mut String, n: usize, base: usize)
    requires
        2 <= base <= 16,
    ensures
        final(out)@ == old(out)@ + digits(n as nat, base as nat),
    decreases n,
{
    if n >= base {
        proof {
            lemma_quotient_is_less(n as nat, base as nat);
        }
        write_digits(out, n / base, base);
    }
    proof {
        if n < base {
            assert(n % base == n) by (nonlinear_arith)
                requires
                    n < base,
            ;
        }
    }
    push_char(out, digit(n % base));
    assert(out@ =~= old(out)@ + digits(n as nat, base as nat));
}

/// A character as it is shown in a message: between single quotes; a tab, a
/// line feed, a carriage return, a null, a quote and a backslash after a
/// backslash, another ASCII control character as its code in `\u{..}`, and
/// any other character as it is.
pub open spec fn quoted(c: char) -> Seq<char> {
    seq!['\''] + (if c == '\t' {
        seq!['\\', 't']
    } else if c == '\n' {
        seq!['\\', 'n']
    } else if c == '\r' {
        seq!['\\', 'r']
    } else if c == '\0' {
        seq!['\\', '0']
    } else if c == '\'' {
        seq!['\\', '\'']
    } else if c == '\\' {
        seq!['\\', '\\']
    } else if c < ' ' || c == '\x7f' {
        seq!['\\', 'u', '{'] + digits(c as nat, 16) + seq!['}']
    } else {
        seq![c]
    }) + seq!['\'']
}

/// Appends a character as it is shown in a message.
fn write_quoted(out: &mut String, c: char)
    ensures
        final(out)@ == old(out)@ + quoted(c),
{
    push_char(out, '\'');
    if c == '\t' {
        push_char(out, '\\');
        push_char(out, 't');
    } else if c == '\n' {
        push_char(out, '\\');
        push_char(out, 'n');
    } else if c == '\r' {
        push_char(out, '\\');
        push_char(out, 'r');
    } else if c == '\0' {
        push_char(out, '\\');
        push_char(out, '0');
    } else if c == '\'' {
        push_char(out, '\\');
        push_char(out, '\'');
    } else if c == '\\' {
        push_char(out, '\\');
        push_char(out, '\\');
    } else if c < ' ' || c == '\x7f' {
        push_char(out, '\\');
        push_char(out, 'u');
        push_char(out, '{');
        write_digits(out, c as usize, 16);
        push_char(out, '}');
    } else {
        push_char(out, c);
    }
    push_char(out, '\'');
    assert(out@ =~= old(out)@ + quoted(c));
}

/// The message of a lexing error.
pub open spec fn lex_error_text(error: LexError) -> Seq<char> {
    "Unknown character "@ + quoted(error.character)
}

impl LexError {
    /// The message of the error.
    pub fn to_string(&self) -> (r: String)
        ensures
            r@ == lex_error_text(*self),
    {
        let mut out = String::from_str("Unknown character ");
        write_quoted(&mut out, self.character);
        out
    }
}

/// The message of a parsing error.
pub open spec fn parse_error_text(error: ParseErrorView) -> Seq<char> {
    match error {
        ParseErrorView::Lex(error) => lex_error_text(error),
        ParseErrorView::EmptyExpression => "cannot parse empty expression"@,
        ParseErrorView::UnknownToken(token) => "unknown token "@ + token_text(token),
        ParseErrorView::UnclosedParenthesis => "Unclosed parenthesis"@,
        ParseErrorView::NotAllowedHere(token) => token_text(token) + " is not allowed here"@,
        ParseErrorView::NoArguments(name) => "Cannot call "@ + name + " with no arguments"@,
        ParseErrorView::ExpectedComma(token) => "Expected comma but got "@ + token_text(token),
        ParseErrorView::ExpectedNewline(token) => "Expected newline but got "@ + token_text(token),
        ParseErrorView::EmptyAssignment => "Empty assignment"@,
        ParseErrorView::UnknownTokenInAssignment(token) => "Unknown token "@ + token_text(token)
            + " in assignment"@,
        ParseErrorView::UnexpectedTokenInArgumentList(token) => "Unexpected token "@ + token_text(
            token,
        ) + " in argument list"@,
        ParseErrorView::UnknownTokenInArgumentList(token) => "Unknown token "@ + token_text(token)
            + " in argument list"@,
        ParseErrorView::ExpectedParameter(token) => "Expected parameter but got "@ + token_text(
            token,
        ),
        ParseErrorView::UnclosedArgumentList => "Unclosed argument list"@,
    }
}

/// `text` between `before` and `after`.
fn framed(before: &str, text: &str, after: &str) -> (r: String)
    ensures
        r@ == before@ + text@ + after@,
{
    let mut out = String::from_str(before);
    out.append(text);
    out.append(after);
    out
}

impl ParseError {
    /// The message of the error.
    pub fn to_string(&self) -> (r: String)
        ensures
            r@ == parse_error_text(self@),
    {
        match self {
            ParseError::Lex(error) => error.to_string(),
            ParseError::EmptyExpression => String::from_str("cannot parse empty expression"),
            ParseError::UnknownToken(token) => {
                let r = framed("unknown token ", token.to_string().as_str(), "");
                assert(r@ =~= parse_error_text(self@)) by {
                    reveal_strlit("");
                }
                r
            },
            ParseError::UnclosedParenthesis => String::from_str("Unclosed parenthesis"),
            ParseError::NotAllowedHere(token) => {
                let r = framed("", token.to_string().as_str(), " is not allowed here");
                assert(r@ =~= parse_error_text(self@)) by {
                    reveal_strlit("");
                }
                r
            },
            ParseError::NoArguments(name) => framed(
                "Cannot call ",
                name.as_str(),
                " with no arguments",
            ),
            ParseError::ExpectedComma(token) => {
                let r = framed("Expected comma but got ", token.to_string().as_str(), "");
                assert(r@ =~= parse_error_text(self@)) by {
                    reveal_strlit("");
                }
                r
            },
            ParseError::ExpectedNewline(token) => {
                let r = framed("Expected newline but got ", token.to_string().as_str(), "");
                assert(r@ =~= parse_error_text(self@)) by {
                    reveal_strlit("");
                }
                r
            },
            ParseError::EmptyAssignment => String::from_str("Empty assignment"),
            ParseError::UnknownTokenInAssignment(token) => framed(
                "Unknown token ",
                token.to_string().as_str(),
                " in assignment",
            ),
            ParseError::UnexpectedTokenInArgumentList(token) => framed(
                "Unexpected token ",
                token.to_string().as_str(),
                " in argument list",
            ),
            ParseError::UnknownTokenInArgumentList(token) => framed(
                "Unknown token ",
                token.to_string().as_str(),
                " in argument list",
            ),
            ParseError::ExpectedParameter(token) => {
                let r = framed("Expected parameter but got ", token.to_string().as_str(), "");
                assert(r@ =~= parse_error_text(self@)) by {
                    reveal_strlit("");
                }
                r
            },
            ParseError::UnclosedArgumentList => String::from_str("Unclosed argument list"),
        }
    }
}

/// The message of an error of the interpreter.
pub open spec fn eval_error_text(error: EvalErrorView) -> Seq<char> {
    match error {
        EvalErrorView::VariableAlreadyBound(name) => "Cannot define variable '"@ + name
            + "' as this name is already bound"@,
        EvalErrorView::FunctionAlreadyBound(name) => "Cannot define function '"@ + name
            + "' as this name is already bound"@,
        EvalErrorView::ArgumentAlreadyBound(name) => "Cannot use argument '"@ + name
            + "' as this name is already bound"@,
        EvalErrorView::UndefinedBinding(name) => "Binding '"@ + name + "' not defined"@,
        EvalErrorView::NotAVariable(name) => "'"@ + name + "' is a function and not a variable"@,
        EvalErrorView::UndefinedFunction(name) => "Function '"@ + name + "' not defined"@,
        EvalErrorView::NotAFunction(name) => "Cannot call '"@ + name
            + "' as it is not a function"@,
        EvalErrorView::WrongArgumentCount { given, expected } => "Cannot pass "@ + digits(
            given,
            10,
        ) + " arguments to a function taking "@ + digits(expected, 10) + " arguments"@,
        EvalErrorView::EndlessRecursion(name) => "Function '"@ + name
            + "' calls itself without end"@,
    }
}

impl EvalError {
    /// The message of the error.
    pub fn to_string(&self) -> (r: String)
        ensures
            r@ == eval_error_text(self@),
    {
        match self {
            EvalError::VariableAlreadyBound(name) => framed(
                "Cannot define variable '",
                name.as_str(),
                "' as this name is already bound",
            ),
            EvalError::FunctionAlreadyBound(name) => framed(
                "Cannot define function '",
                name.as_str(),
                "' as this name is already bound",
            ),
            EvalError::ArgumentAlreadyBound(name) => framed(
                "Cannot use argument '",
                name.as_str(),
                "' as this name is already bound",
            ),
            EvalError::UndefinedBinding(name) => framed("Binding '", name.as_str(), "' not defined"),
            EvalError::NotAVariable(name) => framed(
                "'",
                name.as_str(),
                "' is a function and not a variable",
            ),
            EvalError::UndefinedFunction(name) => framed(
                "Function '",
                name.as_str(),
                "' not defined",
            ),
            EvalError::NotAFunction(name) => framed(
                "Cannot call '",
                name.as_str(),
                "' as it is not a function",
            ),
            EvalError::WrongArgumentCount { given, expected } => {
                let mut out = String::from_str("Cannot pass ");
                write_digits(&mut out, *given, 10);
                out.append(" arguments to a function taking ");
                write_digits(&mut out, *expected, 10);
                out.append(" arguments");
                out
            },
            EvalError::EndlessRecursion(name) => framed(
                "Function '",
                name.as_str(),
                "' calls itself without end",
            ),
        }
    }
}

} // verus!
