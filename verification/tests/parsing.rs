use ecow::EcoString;
use exprlang::ast::{ArgList, BinaryOp, Expr, TopLevelItem, UnaryOp};
use exprlang::lex::Token;
use exprlang::parse::{parse, ParseError, Parser};

fn lit(text: &str) -> Expr {
    Expr::Lit(EcoString::from(text))
}

fn var(name: &str) -> Expr {
    Expr::Variable(EcoString::from(name))
}

fn expr_of(text: &str) -> Expr {
    let mut items = parse(text).unwrap();
    assert_eq!(items.len(), 1);
    match items.pop().unwrap() {
        TopLevelItem::Expression(expr) => expr,
        other => panic!("not an expression: {:?}", other),
    }
}

#[test]
fn parse_precedence_of_product_over_sum() {
    assert_eq!(
        expr_of("1 + 2 * 3"),
        Expr::bin_op(
            BinaryOp::Add,
            lit("1"),
            Expr::bin_op(BinaryOp::DotProduct, lit("2"), lit("3"))
        )
    );
    assert_eq!(
        expr_of("1 * 2 + 3"),
        Expr::bin_op(
            BinaryOp::Add,
            Expr::bin_op(BinaryOp::DotProduct, lit("1"), lit("2")),
            lit("3")
        )
    );
}

#[test]
fn parse_subtraction_associates_to_the_left() {
    assert_eq!(
        expr_of("8 - 3 - 2"),
        Expr::bin_op(
            BinaryOp::Subtract,
            Expr::bin_op(BinaryOp::Subtract, lit("8"), lit("3")),
            lit("2")
        )
    );
}

#[test]
fn parse_signs_leftmost_outermost() {
    assert_eq!(
        expr_of("-+x"),
        Expr::un_op(UnaryOp::Negate, Expr::un_op(UnaryOp::Plus, var("x")))
    );
    assert_eq!(
        expr_of("--5"),
        Expr::un_op(UnaryOp::Negate, Expr::un_op(UnaryOp::Negate, lit("5")))
    );
}

#[test]
fn parse_call_with_arguments() {
    let mut args = ArgList::from_head(var("x"));
    args.push(Expr::bin_op(BinaryOp::Add, lit("1"), lit("2")));
    assert_eq!(
        expr_of("f(x, 1 + 2)"),
        Expr::Call { func: EcoString::from("f"), args }
    );
}

#[test]
fn parse_call_without_arguments_fails() {
    assert_eq!(parse("f()"), Err(ParseError::NoArguments(EcoString::from("f"))));
}

#[test]
fn parse_items() {
    let items = parse("x := 1\nf(a, b) := a + b\n\nf(x, 2)\n").unwrap();
    assert_eq!(items.len(), 3);
    assert_eq!(
        items[0],
        TopLevelItem::Assignment { name: EcoString::from("x"), body: lit("1") }
    );
    let mut params = ArgList::from_head(EcoString::from("a"));
    params.push(EcoString::from("b"));
    assert_eq!(
        items[1],
        TopLevelItem::FunctionDef {
            name: EcoString::from("f"),
            args: params,
            body: Expr::bin_op(BinaryOp::Add, var("a"), var("b")),
        }
    );
}

#[test]
fn parse_errors() {
    assert_eq!(parse("(1"), Err(ParseError::UnclosedParenthesis));
    assert_eq!(parse("(1 2)"), Err(ParseError::NotAllowedHere(Token::NumLit(EcoString::from("2")))));
    assert_eq!(parse("1 +"), Err(ParseError::EmptyExpression));
    assert_eq!(parse(")"), Err(ParseError::UnknownToken(Token::RightParen)));
    assert_eq!(parse("1 2"), Err(ParseError::ExpectedNewline(Token::NumLit(EcoString::from("2")))));
    assert_eq!(parse(":= 1"), Err(ParseError::EmptyAssignment));
    assert_eq!(parse("f(x) y := 1"), Err(ParseError::UnknownTokenInAssignment(Token::Ident(EcoString::from("y")))));
    assert_eq!(parse("f(x := 1"), Err(ParseError::UnclosedArgumentList));
    assert_eq!(parse("f(1) := 1"), Err(ParseError::UnexpectedTokenInArgumentList(Token::NumLit(EcoString::from("1")))));
    assert_eq!(parse("f(x, 1) := 1"), Err(ParseError::ExpectedParameter(Token::NumLit(EcoString::from("1")))));
    assert_eq!(parse("f(x y) := 1"), Err(ParseError::UnknownTokenInArgumentList(Token::Ident(EcoString::from("y")))));
    assert_eq!(parse("f(x, 1 2)"), Err(ParseError::ExpectedComma(Token::NumLit(EcoString::from("2")))));
    assert_eq!(parse("1 := 2"), Err(ParseError::UnknownTokenInAssignment(Token::NumLit(EcoString::from("1")))));
}

#[test]
fn parser_leaves_what_follows_an_expression() {
    let tokens = exprlang::lex::lex("1 + 2 ) 3").unwrap();
    let mut parser = Parser::new(tokens);
    assert_eq!(
        parser.parse_expr(None),
        Ok(Expr::bin_op(BinaryOp::Add, lit("1"), lit("2")))
    );
    assert_eq!(parser.parse_expr(None), Err(ParseError::UnknownToken(Token::RightParen)));
}

#[test]
fn format_round_trips() {
    for text in ["1 + (2 * 3)", "-(a + b)", "f(x, -y) / 2", "(-a) * b", "--x", "(a - b) - c", "a - (b - c)"] {
        let expr = expr_of(text);
        assert_eq!(expr.to_string(), text);
        assert_eq!(expr_of(&expr.to_string()), expr);
    }
    assert_eq!(expr_of("1+2*3").to_string(), "1 + (2 * 3)");
}

#[test]
fn format_items() {
    for text in ["x := 1 + 2", "f(a) := a * a", "f(a, b, c) := (a + b) / c", "g(-1, h(2))"] {
        let items = parse(text).unwrap();
        assert_eq!(items.len(), 1);
        assert_eq!(items[0].to_string(), text);
    }
}

#[test]
fn format_tokens() {
    let tokens = exprlang::lex::lex("f(x, .5)\n:= + - * / .").unwrap();
    let texts: Vec<String> = tokens.iter().map(|token| token.to_string()).collect();
    assert_eq!(
        texts,
        ["f", "(", "x", ",", ".5", ")", "\\n", ":=", "+", "-", "*", "/", "."]
    );
}

#[test]
fn format_keeps_literals_as_written() {
    assert_eq!(expr_of("1.50 + .5").to_string(), "1.50 + .5");
    assert_eq!(expr_of("007").to_string(), "007");
}

#[test]
fn parse_newline_at_the_start_is_no_expression() {
    assert_eq!(parse("\n1"), Err(ParseError::UnknownToken(Token::Newline)));
    assert_eq!(parse("1\n\n\n").unwrap().len(), 1);
    assert_eq!(parse("").unwrap().len(), 0);
    assert_eq!(parse("1\r\n2\r3\n4").unwrap().len(), 4);
}

#[test]
fn parse_assignment_is_looked_for_in_the_first_line_only() {
    let items = parse("1\nx := 2").unwrap();
    assert_eq!(items.len(), 2);
    assert_eq!(items[0], TopLevelItem::Expression(lit("1")));
    assert_eq!(parse("x := y := 1"), Err(ParseError::ExpectedNewline(Token::Assign)));
}

#[test]
fn parse_lexing_error_is_reported() {
    assert_eq!(
        parse("1 + $"),
        Err(ParseError::Lex(exprlang::lex::LexError { character: '$' }))
    );
}

#[test]
fn parse_dot_starts_no_expression() {
    assert_eq!(parse("."), Err(ParseError::UnknownToken(Token::Dot)));
    assert_eq!(parse("f(x) := "), Err(ParseError::EmptyExpression));
    assert_eq!(parse("f(x"), Err(ParseError::UnclosedParenthesis));
    assert_eq!(parse("f("), Err(ParseError::EmptyExpression));
}

#[test]
fn binding_powers() {
    assert_eq!(BinaryOp::Add.binding_power(), 1);
    assert_eq!(BinaryOp::Subtract.binding_power(), 1);
    assert_eq!(BinaryOp::DotProduct.binding_power(), 2);
    assert_eq!(BinaryOp::Divide.binding_power(), 2);
}

#[test]
fn arg_list_grows_at_the_end() {
    let mut list = ArgList::from_head(1u8);
    assert_eq!(list.len(), 1);
    list.push(2);
    list.push(3);
    assert_eq!(list.len(), 3);
    assert_eq!((*list.get(0), *list.get(1), *list.get(2)), (1, 2, 3));
    assert_eq!(list.as_slice(), [1, 2, 3]);
}

#[test]
fn copy_of_an_expression_is_equal() {
    let expr = expr_of("f(x, -1) * (2 + y)");
    assert_eq!(expr.clone(), expr);
}

#[test]
fn program_round_trips() {
    let text = "a := 1.5\nf(x, y) := (x * a) - (-y)\nf(2, sqrt(a + 1)) / 3\n+-a";
    let items = parse(text).unwrap();
    let lines: Vec<String> = items.iter().map(|item| item.to_string()).collect();
    assert_eq!(lines.join("\n"), text);
    assert_eq!(parse(&lines.join("\n")).unwrap(), items);
}

#[test]
fn what_is_parsed_is_written_and_parsed_again() {
    for text in ["1+2*3-4/5", "-(1)", "((x))", "f( a ,b )", "- - x", "a*(b+c)*d", "g(x):=x"] {
        let items = parse(text).unwrap();
        let written: Vec<String> = items.iter().map(|item| item.to_string()).collect();
        assert_eq!(parse(&written.join("\n")).unwrap(), items);
    }
}
