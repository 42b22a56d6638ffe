use ecow::EcoString;
use exprlang::lex::{lex, LexError, Token};

fn ident(name: &str) -> Token {
    Token::Ident(EcoString::from(name))
}

fn num(text: &str) -> Token {
    Token::NumLit(EcoString::from(text))
}

#[test]
fn lex_empty_text() {
    assert_eq!(lex(""), Ok(vec![]));
    assert_eq!(lex("  \t "), Ok(vec![]));
}

#[test]
fn lex_symbols() {
    assert_eq!(
        lex("( ) , + - * / :="),
        Ok(vec![
            Token::LeftParen,
            Token::RightParen,
            Token::Comma,
            Token::Plus,
            Token::Minus,
            Token::Cdot,
            Token::Slash,
            Token::Assign,
        ])
    );
}

#[test]
fn lex_identifier_is_a_maximal_run_of_letters() {
    assert_eq!(lex("abc"), Ok(vec![ident("abc")]));
    assert_eq!(lex("ab cd"), Ok(vec![ident("ab"), ident("cd")]));
    assert_eq!(lex("x1"), Ok(vec![ident("x"), num("1")]));
    assert_eq!(lex("a_b").unwrap_err(), LexError { character: '_' });
}

#[test]
fn lex_numbers() {
    assert_eq!(lex("12"), Ok(vec![num("12")]));
    assert_eq!(lex("1.5"), Ok(vec![num("1.5")]));
    assert_eq!(lex("1."), Ok(vec![num("1.")]));
    assert_eq!(lex(".5"), Ok(vec![num(".5")]));
    assert_eq!(lex("1.2.3"), Ok(vec![num("1.2"), num(".3")]));
    assert_eq!(lex("1..2"), Ok(vec![num("1."), num(".2")]));
}

#[test]
fn lex_lone_dot_is_a_dot() {
    assert_eq!(lex("."), Ok(vec![Token::Dot]));
    assert_eq!(lex(".x"), Ok(vec![Token::Dot, ident("x")]));
    assert_eq!(lex("x.5"), Ok(vec![ident("x"), num(".5")]));
}

#[test]
fn lex_newlines() {
    assert_eq!(lex("a\nb"), Ok(vec![ident("a"), Token::Newline, ident("b")]));
    assert_eq!(lex("a\r\nb"), Ok(vec![ident("a"), Token::Newline, ident("b")]));
    assert_eq!(lex("a\rb"), Ok(vec![ident("a"), Token::Newline, ident("b")]));
    assert_eq!(lex("\n\n"), Ok(vec![Token::Newline, Token::Newline]));
    assert_eq!(lex(" \n a"), Ok(vec![Token::Newline, ident("a")]));
}

#[test]
fn lex_unknown_character() {
    assert_eq!(lex("a ? b"), Err(LexError { character: '?' }));
    assert_eq!(lex("a : b"), Err(LexError { character: ':' }));
    assert_eq!(lex("a = b"), Err(LexError { character: '=' }));
}

#[test]
fn lex_assignment() {
    assert_eq!(
        lex("f(x) := x*2"),
        Ok(vec![
            ident("f"),
            Token::LeftParen,
            ident("x"),
            Token::RightParen,
            Token::Assign,
            ident("x"),
            Token::Cdot,
            num("2"),
        ])
    );
}

#[test]
fn lex_long_texts() {
    let name = "averyveryverylongidentifierindeed";
    let number = "1234567890123456789012345678901234567890.0123456789";
    assert_eq!(
        lex(&format!("{name} + {number}")),
        Ok(vec![ident(name), Token::Plus, num(number)])
    );
}

#[test]
fn lex_blanks_are_space_tab_and_form_feed() {
    assert_eq!(lex("a \t\u{c}b"), Ok(vec![ident("a"), ident("b")]));
    assert_eq!(lex("a\u{b}b"), Err(LexError { character: '\u{b}' }));
}

#[test]
fn lex_error_is_the_first_unknown_character() {
    assert_eq!(lex("a # b $ c"), Err(LexError { character: '#' }));
    assert_eq!(lex("1 :: 2"), Err(LexError { character: ':' }));
}
