use ecow::EcoString;
use exprlang::lex::{lex, LexError, Token};
use exprlang::parse::{parse, ParseError};
use exprlang::run::EvalError;

#[test]
fn message_of_a_lexing_error() {
    assert_eq!(lex("1 ? 2").unwrap_err().to_string(), "Unknown character '?'");
    assert_eq!(LexError { character: '_' }.to_string(), "Unknown character '_'");
    assert_eq!(LexError { character: '"' }.to_string(), "Unknown character '\"'");
}

#[test]
fn message_shows_a_control_character_by_its_code() {
    assert_eq!(LexError { character: '\t' }.to_string(), "Unknown character '\\t'");
    assert_eq!(LexError { character: '\n' }.to_string(), "Unknown character '\\n'");
    assert_eq!(LexError { character: '\r' }.to_string(), "Unknown character '\\r'");
    assert_eq!(LexError { character: '\0' }.to_string(), "Unknown character '\\0'");
    assert_eq!(LexError { character: '\'' }.to_string(), "Unknown character '\\''");
    assert_eq!(LexError { character: '\\' }.to_string(), "Unknown character '\\\\'");
    assert_eq!(lex("\u{b}").unwrap_err().to_string(), "Unknown character '\\u{b}'");
    assert_eq!(LexError { character: '\u{1f}' }.to_string(), "Unknown character '\\u{1f}'");
    assert_eq!(LexError { character: '\u{7f}' }.to_string(), "Unknown character '\\u{7f}'");
    assert_eq!(LexError { character: '\u{1}' }.to_string(), "Unknown character '\\u{1}'");
}

#[test]
fn message_agrees_with_the_debug_form_of_ascii_characters() {
    for code in 0..128u8 {
        let character = code as char;
        assert_eq!(
            LexError { character }.to_string(),
            format!("Unknown character {:?}", character)
        );
    }
}

#[test]
fn messages_of_parsing_errors() {
    let message = |text: &str| parse(text).unwrap_err().to_string();
    assert_eq!(message("1 + $"), "Unknown character '$'");
    assert_eq!(message("1 +"), "cannot parse empty expression");
    assert_eq!(message(")"), "unknown token )");
    assert_eq!(message("(1"), "Unclosed parenthesis");
    assert_eq!(message("(1 2)"), "2 is not allowed here");
    assert_eq!(message("f()"), "Cannot call f with no arguments");
    assert_eq!(message("f(1 2)"), "Expected comma but got 2");
    assert_eq!(message("1 x"), "Expected newline but got x");
    assert_eq!(message(":= 1"), "Empty assignment");
    assert_eq!(message("1 := 2"), "Unknown token 1 in assignment");
    assert_eq!(message("f(1) := 2"), "Unexpected token 1 in argument list");
    assert_eq!(message("f(x y) := 2"), "Unknown token y in argument list");
    assert_eq!(message("f(x, 1) := 2"), "Expected parameter but got 1");
    assert_eq!(message("f(x, := 2"), "Unclosed argument list");
    assert_eq!(
        ParseError::ExpectedNewline(Token::Newline).to_string(),
        "Expected newline but got \\n"
    );
}

#[test]
fn messages_of_evaluation_errors() {
    let x = EcoString::from("x");
    assert_eq!(
        EvalError::VariableAlreadyBound(x.clone()).to_string(),
        "Cannot define variable 'x' as this name is already bound"
    );
    assert_eq!(
        EvalError::FunctionAlreadyBound(x.clone()).to_string(),
        "Cannot define function 'x' as this name is already bound"
    );
    assert_eq!(
        EvalError::ArgumentAlreadyBound(x.clone()).to_string(),
        "Cannot use argument 'x' as this name is already bound"
    );
    assert_eq!(EvalError::UndefinedBinding(x.clone()).to_string(), "Binding 'x' not defined");
    assert_eq!(
        EvalError::NotAVariable(x.clone()).to_string(),
        "'x' is a function and not a variable"
    );
    assert_eq!(EvalError::UndefinedFunction(x.clone()).to_string(), "Function 'x' not defined");
    assert_eq!(
        EvalError::NotAFunction(x.clone()).to_string(),
        "Cannot call 'x' as it is not a function"
    );
    assert_eq!(
        EvalError::EndlessRecursion(x.clone()).to_string(),
        "Function 'x' calls itself without end"
    );
}

#[test]
fn message_counts_in_decimal() {
    assert_eq!(
        EvalError::WrongArgumentCount { given: 2, expected: 1 }.to_string(),
        "Cannot pass 2 arguments to a function taking 1 arguments"
    );
    assert_eq!(
        EvalError::WrongArgumentCount { given: 0, expected: 10 }.to_string(),
        "Cannot pass 0 arguments to a function taking 10 arguments"
    );
    assert_eq!(
        EvalError::WrongArgumentCount { given: 1234567890, expected: 907 }.to_string(),
        "Cannot pass 1234567890 arguments to a function taking 907 arguments"
    );
}
