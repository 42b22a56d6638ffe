//! The parser: from tokens to top-level items, by precedence climbing.

use crate::ast::{
    exprs_view, items_view, names_view, ArgList, BinaryOp, Expr, ExprView, Ident, ItemView,
    TopLevelItem, UnaryOp,
};
use crate::ident::text_of;
use crate::lex::{before, lex, lex_spec, tokens_view, LexError, Token, TokenView};
use vstd::prelude::*;
use vstd::string::*;

verus! {

/// Why a sequence of tokens is no program.
#[derive(Debug, Clone, PartialEq, Eq)]
pub enum ParseError {
    /// The text holds a character that starts no token.
    Lex(LexError),
    /// Where an expression should start, the tokens end.
    EmptyExpression,
    /// An expression starts with a token that starts none.
    UnknownToken(Token),
    /// A parenthesis is opened and the tokens end before it is closed.
    UnclosedParenthesis,
    /// A parenthesized expression is followed by something else than `)`.
    NotAllowedHere(Token),
    /// A call has no arguments.
    NoArguments(Ident),
    /// An argument of a call is followed by neither `,` nor `)`.
    ExpectedComma(Token),
    /// An item is followed by something else than a newline.
    ExpectedNewline(Token),
    /// Nothing stands before `:=`.
    EmptyAssignment,
    /// What stands before `:=` neither is a name nor starts as a function's
    /// head, or something follows the head.
    UnknownTokenInAssignment(Token),
    /// The first parameter of a function is no name.
    UnexpectedTokenInArgumentList(Token),
    /// A parameter is followed by neither `,` nor `)`.
    UnknownTokenInArgumentList(Token),
    /// A `,` among the parameters is followed by no name.
    ExpectedParameter(Token),
    /// The parameters end before `)`.
    UnclosedArgumentList,
}

/// What a `ParseError` is, with each token as its value.
pub ghost enum ParseErrorView {
    Lex(LexError),
    EmptyExpression,
    UnknownToken(TokenView),
    UnclosedParenthesis,
    NotAllowedHere(TokenView),
    NoArguments(Seq<char>),
    ExpectedComma(TokenView),
    ExpectedNewline(TokenView),
    EmptyAssignment,
    UnknownTokenInAssignment(TokenView),
    UnexpectedTokenInArgumentList(TokenView),
    UnknownTokenInArgumentList(TokenView),
    ExpectedParameter(TokenView),
    UnclosedArgumentList,
}

impl View for ParseError {
    type V = ParseErrorView;

    open spec fn view(&self) -> ParseErrorView {
        match self {
            ParseError::Lex(e) => ParseErrorView::Lex(*e),
            ParseError::EmptyExpression => ParseErrorView::EmptyExpression,
            ParseError::UnknownToken(t) => ParseErrorView::UnknownToken(t@),
            ParseError::UnclosedParenthesis => ParseErrorView::UnclosedParenthesis,
            ParseError::NotAllowedHere(t) => ParseErrorView::NotAllowedHere(t@),
            ParseError::NoArguments(name) => ParseErrorView::NoArguments(text_of(*name)),
            ParseError::ExpectedComma(t) => ParseErrorView::ExpectedComma(t@),
            ParseError::ExpectedNewline(t) => ParseErrorView::ExpectedNewline(t@),
            ParseError::EmptyAssignment => ParseErrorView::EmptyAssignment,
            ParseError::UnknownTokenInAssignment(t) => ParseErrorView::UnknownTokenInAssignment(t@),
            ParseError::UnexpectedTokenInArgumentList(t) => {
                ParseErrorView::UnexpectedTokenInArgumentList(t@)
            },
            ParseError::UnknownTokenInArgumentList(t) => {
                ParseErrorView::UnknownTokenInArgumentList(t@)
            },
            ParseError::ExpectedParameter(t) => ParseErrorView::ExpectedParameter(t@),
            ParseError::UnclosedArgumentList => ParseErrorView::UnclosedArgumentList,
        }
    }
}

/// An expression with the tokens that follow it, or the error.
pub type Parsed = Result<(ExprView, Seq<TokenView>), ParseErrorView>;

/// The sign that a token stands for at the start of an expression.
pub open spec fn sign_of(token: TokenView) -> Option<UnaryOp> {
    match token {
        TokenView::Minus => Some(UnaryOp::Negate),
        TokenView::Plus => Some(UnaryOp::Plus),
        _ => None,
    }
}

/// The binary operator that a token stands for after an operand.
pub open spec fn operator_of(token: TokenView) -> Option<BinaryOp> {
    match token {
        TokenView::Plus => Some(BinaryOp::Add),
        TokenView::Minus => Some(BinaryOp::Subtract),
        TokenView::Cdot => Some(BinaryOp::DotProduct),
        TokenView::Slash => Some(BinaryOp::Divide),
        _ => None,
    }
}

/// Whether `op` is taken by an expression that is the right operand of
/// `min`: at the top every operator is, below another only one that binds
/// strictly tighter.
pub open spec fn binds(op: BinaryOp, min: Option<BinaryOp>) -> bool {
    match min {
        None => true,
        Some(outer) => op.power() > outer.power(),
    }
}

/// The signs that `ts` starts with, in order.
pub open spec fn leading_signs(ts: Seq<TokenView>) -> Seq<UnaryOp>
    decreases ts.len(),
{
    if ts.len() > 0 && sign_of(ts[0]) is Some {
        seq![sign_of(ts[0])->0] + leading_signs(ts.drop_first())
    } else {
        Seq::empty()
    }
}

/// `operand` under `signs`, the leftmost sign outermost.
pub open spec fn with_signs(signs: Seq<UnaryOp>, operand: ExprView) -> ExprView
    decreases signs.len(),
{
    if signs.len() == 0 {
        operand
    } else {
        ExprView::UnOp {
            op: signs[0],
            arg: Box::new(with_signs(signs.drop_first(), operand)),
        }
    }
}

/// There are no more signs than tokens.
pub proof fn lemma_leading_signs_len(ts: Seq<TokenView>)
    ensures
        leading_signs(ts).len() <= ts.len(),
    decreases ts.len(),
{
    if ts.len() > 0 && sign_of(ts[0]) is Some {
        lemma_leading_signs_len(ts.drop_first());
    }
}

/// The expression that `ts` starts with, where it is the right operand of
/// `min` (or stands alone, for `None`): signs, a primary, and then each
/// operator that binds, with its right operand.
///
/// Here and in the three definitions that follow, what is left is compared
/// in length with what there was before the definition is applied to it.
/// The comparison shows that the definitions end. It never fails: see
/// `lemma_parse_expr_progress` and the lemmas after it.
pub open spec fn parse_expr_spec(ts: Seq<TokenView>, min: Option<BinaryOp>) -> Parsed
    decreases ts.len(), 2int,
{
    let signs = leading_signs(ts);
    let after = ts.skip(signs.len() as int);
    proof {
        lemma_leading_signs_len(ts);
    }
    match parse_primary_spec(after) {
        Err(e) => Err(e),
        Ok((primary, rest)) => {
            let operand = with_signs(signs, primary);
            if rest.len() <= ts.len() {
                parse_operators_spec(operand, rest, min)
            } else {
                Ok((operand, rest))
            }
        },
    }
}

/// The primary that `ts` starts with: a parenthesized expression, a
/// literal, a call with its arguments, or a variable.
pub open spec fn parse_primary_spec(ts: Seq<TokenView>) -> Parsed
    decreases ts.len(), 1int,
{
    if ts.len() == 0 {
        Err(ParseErrorView::EmptyExpression)
    } else {
        match ts[0] {
            TokenView::LeftParen => match parse_expr_spec(ts.drop_first(), None) {
                Err(e) => Err(e),
                Ok((inner, rest)) => {
                    if rest.len() == 0 {
                        Err(ParseErrorView::UnclosedParenthesis)
                    } else if rest[0] is RightParen {
                        Ok((inner, rest.drop_first()))
                    } else {
                        Err(ParseErrorView::NotAllowedHere(rest[0]))
                    }
                },
            },
            TokenView::NumLit(text) => Ok((ExprView::Lit(text), ts.drop_first())),
            TokenView::Ident(name) => {
                if ts.len() > 1 && ts[1] is LeftParen {
                    if ts.len() > 2 && ts[2] is RightParen {
                        Err(ParseErrorView::NoArguments(name))
                    } else {
                        match parse_expr_spec(ts.skip(2), None) {
                            Err(e) => Err(e),
                            Ok((first, rest)) => {
                                if rest.len() < ts.len() {
                                    match parse_more_args_spec(seq![first], rest) {
                                        Err(e) => Err(e),
                                        Ok((args, after)) => Ok(
                                            (ExprView::Call { func: name, args }, after),
                                        ),
                                    }
                                } else {
                                    Err(ParseErrorView::UnclosedParenthesis)
                                }
                            },
                        }
                    }
                } else {
                    Ok((ExprView::Variable(name), ts.drop_first()))
                }
            },
            token => Err(ParseErrorView::UnknownToken(token)),
        }
    }
}

/// The arguments of a call after `args`, up to the closing parenthesis,
/// and the tokens after it.
pub open spec fn parse_more_args_spec(args: Seq<ExprView>, ts: Seq<TokenView>) -> Result<
    (Seq<ExprView>, Seq<TokenView>),
    ParseErrorView,
>
    decreases ts.len(), 0int,
{
    if ts.len() == 0 {
        Err(ParseErrorView::UnclosedParenthesis)
    } else {
        match ts[0] {
            TokenView::RightParen => Ok((args, ts.drop_first())),
            TokenView::Comma => match parse_expr_spec(ts.drop_first(), None) {
                Err(e) => Err(e),
                Ok((arg, rest)) => {
                    if rest.len() < ts.len() {
                        parse_more_args_spec(args.push(arg), rest)
                    } else {
                        Err(ParseErrorView::UnclosedParenthesis)
                    }
                },
            },
            token => Err(ParseErrorView::ExpectedComma(token)),
        }
    }
}

/// `left` with each operator of `ts` that binds under `min`, and its right
/// operand, folded in from the left.
pub open spec fn parse_operators_spec(
    left: ExprView,
    ts: Seq<TokenView>,
    min: Option<BinaryOp>,
) -> Parsed
    decreases ts.len(), 0int,
{
    if ts.len() > 0 && operator_of(ts[0]) is Some && binds(operator_of(ts[0])->0, min) {
        let op = operator_of(ts[0])->0;
        match parse_expr_spec(ts.drop_first(), Some(op)) {
            Err(e) => Err(e),
            Ok((right, rest)) => {
                let folded = ExprView::BinOp { op, left: Box::new(left), right: Box::new(right) };
                if rest.len() < ts.len() {
                    parse_operators_spec(folded, rest, min)
                } else {
                    Ok((folded, rest))
                }
            },
        }
    } else {
        Ok((left, ts))
    }
}

/// An expression takes at least one token.
pub proof fn lemma_parse_expr_progress(ts: Seq<TokenView>, min: Option<BinaryOp>)
    ensures
        parse_expr_spec(ts, min) matches Ok((_, rest)) ==> rest.len() < ts.len(),
    decreases ts.len(), 2int,
{
    let signs = leading_signs(ts);
    let after = ts.skip(signs.len() as int);
    lemma_leading_signs_len(ts);
    lemma_parse_primary_progress(after);
    if let Ok((primary, rest)) = parse_primary_spec(after) {
        lemma_parse_operators_progress(with_signs(signs, primary), rest, min);
    }
}

/// A primary takes at least one token.
pub proof fn lemma_parse_primary_progress(ts: Seq<TokenView>)
    ensures
        parse_primary_spec(ts) matches Ok((_, rest)) ==> rest.len() < ts.len(),
    decreases ts.len(), 1int,
{
    if ts.len() > 0 {
        match ts[0] {
            TokenView::LeftParen => {
                lemma_parse_expr_progress(ts.drop_first(), None);
            },
            TokenView::Ident(name) => {
                if ts.len() > 1 && ts[1] is LeftParen {
                    lemma_parse_expr_progress(ts.skip(2), None);
                    if let Ok((first, rest)) = parse_expr_spec(ts.skip(2), None) {
                        lemma_parse_more_args_progress(seq![first], rest);
                    }
                }
            },
            _ => {},
        }
    }
}

/// The rest of an argument list takes at least one token.
pub proof fn lemma_parse_more_args_progress(args: Seq<ExprView>, ts: Seq<TokenView>)
    ensures
        parse_more_args_spec(args, ts) matches Ok((_, rest)) ==> rest.len() < ts.len(),
    decreases ts.len(), 0int,
{
    if ts.len() > 0 && ts[0] is Comma {
        lemma_parse_expr_progress(ts.drop_first(), None);
        if let Ok((arg, rest)) = parse_expr_spec(ts.drop_first(), None) {
            lemma_parse_more_args_progress(args.push(arg), rest);
        }
    }
}

/// Operators and their operands leave no more tokens than there were.
pub proof fn lemma_parse_operators_progress(
    left: ExprView,
    ts: Seq<TokenView>,
    min: Option<BinaryOp>,
)
    ensures
        parse_operators_spec(left, ts, min) matches Ok((_, rest)) ==> rest.len() <= ts.len(),
    decreases ts.len(), 0int,
{
    if ts.len() > 0 && operator_of(ts[0]) is Some && binds(operator_of(ts[0])->0, min) {
        let op = operator_of(ts[0])->0;
        lemma_parse_expr_progress(ts.drop_first(), Some(op));
        if let Ok((right, rest)) = parse_expr_spec(ts.drop_first(), Some(op)) {
            let folded = ExprView::BinOp { op, left: Box::new(left), right: Box::new(right) };
            lemma_parse_operators_progress(folded, rest, min);
        }
    }
}

/// Adding a sign at the end puts it next to the operand.
pub proof fn lemma_with_signs_push(signs: Seq<UnaryOp>, last: UnaryOp, operand: ExprView)
    ensures
        with_signs(signs.push(last), operand) == with_signs(
            signs,
            ExprView::UnOp { op: last, arg: Box::new(operand) },
        ),
    decreases signs.len(),
{
    let longer = signs.push(last);
    assert(longer.len() > 0 && longer[0] == if signs.len() == 0 {
        last
    } else {
        signs[0]
    });
    if signs.len() == 0 {
        assert(longer.drop_first() =~= signs);
        assert(with_signs(longer.drop_first(), operand) == operand);
    } else {
        assert(longer.drop_first() =~= signs.drop_first().push(last));
        lemma_with_signs_push(signs.drop_first(), last, operand);
    }
}

/// Where the first `:=` of the first line of `ts` stands, if that line has
/// one.
pub open spec fn assign_position(ts: Seq<TokenView>) -> Option<int>
    decreases ts.len(),
{
    if ts.len() == 0 || ts[0] is Newline {
        None
    } else if ts[0] is Assign {
        Some(0)
    } else {
        match assign_position(ts.drop_first()) {
            Some(index) => Some(index + 1),
            None => None,
        }
    }
}

/// The name that an item binds, with its parameters where it is a function.
pub type Head = (Seq<char>, Option<Seq<Seq<char>>>);

/// The parameters of a function after `params`: `ts` holds them from the
/// token after a parameter up to the closing parenthesis, which is the last
/// token.
pub open spec fn parse_params_spec(params: Seq<Seq<char>>, ts: Seq<TokenView>) -> Result<
    Seq<Seq<char>>,
    ParseErrorView,
>
    decreases ts.len(),
{
    if ts.len() == 0 {
        Err(ParseErrorView::UnclosedArgumentList)
    } else {
        match ts[0] {
            TokenView::Comma => {
                if ts.len() == 1 {
                    Err(ParseErrorView::UnclosedArgumentList)
                } else {
                    match ts[1] {
                        TokenView::Ident(name) => parse_params_spec(params.push(name), ts.skip(2)),
                        token => Err(ParseErrorView::ExpectedParameter(token)),
                    }
                }
            },
            TokenView::RightParen => {
                if ts.len() == 1 {
                    Ok(params)
                } else {
                    Err(ParseErrorView::UnknownTokenInAssignment(ts[1]))
                }
            },
            token => Err(ParseErrorView::UnknownTokenInArgumentList(token)),
        }
    }
}

/// The head that the tokens before a `:=` make up: a name, or a name and a
/// parenthesized list of at least one parameter, and nothing else.
pub open spec fn parse_head_spec(head: Seq<TokenView>) -> Result<Head, ParseErrorView> {
    if head.len() == 0 {
        Err(ParseErrorView::EmptyAssignment)
    } else {
        match head[0] {
            TokenView::Ident(name) => {
                if head.len() == 1 {
                    Ok((name, None))
                } else if !(head[1] is LeftParen) {
                    Err(ParseErrorView::UnknownTokenInAssignment(head[1]))
                } else if head.len() == 2 {
                    Err(ParseErrorView::UnclosedArgumentList)
                } else {
                    match head[2] {
                        TokenView::Ident(first) => match parse_params_spec(
                            seq![first],
                            head.skip(3),
                        ) {
                            Ok(params) => Ok((name, Some(params))),
                            Err(e) => Err(e),
                        },
                        token => Err(ParseErrorView::UnexpectedTokenInArgumentList(token)),
                    }
                }
            },
            token => Err(ParseErrorView::UnknownTokenInAssignment(token)),
        }
    }
}

/// `ts` without the newlines that it starts with.
pub open spec fn skip_newlines(ts: Seq<TokenView>) -> Seq<TokenView>
    decreases ts.len(),
{
    if ts.len() > 0 && ts[0] is Newline {
        skip_newlines(ts.drop_first())
    } else {
        ts
    }
}

/// Skipping newlines adds no token.
pub proof fn lemma_skip_newlines_len(ts: Seq<TokenView>)
    ensures
        skip_newlines(ts).len() <= ts.len(),
    decreases ts.len(),
{
    if ts.len() > 0 && ts[0] is Newline {
        lemma_skip_newlines_len(ts.drop_first());
    }
}

/// A `:=` that is found stands within the tokens.
pub proof fn lemma_assign_position_bounds(ts: Seq<TokenView>)
    ensures
        assign_position(ts) matches Some(index) ==> 0 <= index < ts.len() && ts[index] is Assign,
    decreases ts.len(),
{
    if ts.len() > 0 && !(ts[0] is Newline) && !(ts[0] is Assign) {
        lemma_assign_position_bounds(ts.drop_first());
    }
}

/// The item that a head, if there is one, and a body make up.
pub open spec fn item_of(head: Option<Head>, body: ExprView) -> ItemView {
    match head {
        Some((name, Some(args))) => ItemView::FunctionDef { name, args, body },
        Some((name, None)) => ItemView::Assignment { name, body },
        None => ItemView::Expression(body),
    }
}

/// The items that `ts` holds. Each item is an expression, preceded by a
/// head and `:=` where its line holds a `:=`, and followed by the end of the
/// tokens or by one or more newlines.
pub open spec fn parse_items_spec(ts: Seq<TokenView>) -> Result<Seq<ItemView>, ParseErrorView>
    decreases ts.len(),
{
    if ts.len() == 0 {
        Ok(Seq::empty())
    } else {
        let head = match assign_position(ts) {
            Some(index) => match parse_head_spec(ts.take(index)) {
                Ok(head) => Ok(Some(head)),
                Err(e) => Err(e),
            },
            None => Ok(None),
        };
        let body_tokens = match assign_position(ts) {
            Some(index) => ts.skip(index + 1),
            None => ts,
        };
        match head {
            Err(e) => Err(e),
            Ok(head) => match parse_expr_spec(body_tokens, None) {
                Err(e) => Err(e),
                Ok((body, rest)) => {
                    let item = item_of(head, body);
                    if rest.len() == 0 {
                        Ok(seq![item])
                    } else if rest[0] is Newline {
                        proof {
                            lemma_assign_position_bounds(ts);
                            lemma_parse_expr_progress(body_tokens, None);
                            lemma_skip_newlines_len(rest);
                        }
                        before(seq![item], parse_items_spec(skip_newlines(rest)))
                    } else {
                        Err(ParseErrorView::ExpectedNewline(rest[0]))
                    }
                },
            },
        }
    }
}

/// The items that the text `s` holds.
pub open spec fn parse_spec(s: Seq<char>) -> Result<Seq<ItemView>, ParseErrorView> {
    match lex_spec(s) {
        Ok(tokens) => parse_items_spec(tokens),
        Err(e) => Err(ParseErrorView::Lex(e)),
    }
}

/// `position`, if there is one, moved on by `offset`.
pub open spec fn shifted(position: Option<int>, offset: int) -> Option<int> {
    match position {
        Some(index) => Some(index + offset),
        None => None,
    }
}

/// What a parsed head is, with each name as its characters.
pub open spec fn head_view(head: (Ident, Option<ArgList<Ident>>)) -> Head {
    (
        text_of(head.0),
        match head.1 {
            Some(args) => Some(names_view(args@)),
            None => None,
        },
    )
}

/// Whether `r` is the outcome `expected`, leaving the tokens `rest`.
pub open spec fn parsed_as(r: Result<Expr, ParseError>, rest: Seq<TokenView>, expected: Parsed) -> bool {
    match r {
        Ok(expr) => expected == Ok::<_, ParseErrorView>((expr@, rest)),
        Err(error) => expected == Err::<(ExprView, Seq<TokenView>), _>(error@),
    }
}

/// A parser over a sequence of tokens, which it takes from the front.
pub struct Parser {
    /// The tokens that are left, the next one last.
    tokens: Vec<Token>,
}

impl Parser {
    /// The tokens that are left, in the order in which they will be taken.
    pub closed spec fn remaining(&self) -> Seq<TokenView> {
        Seq::new(self.tokens@.len(), |i: int| self.tokens@[self.tokens@.len() - 1 - i]@)
    }

    /// A parser that will take `tokens` from first to last.
    pub fn new(tokens: Vec<Token>) -> (r: Self)
        ensures
            r.remaining() == tokens_view(tokens@),
    {
        let ghost all = tokens@;
        let mut source = tokens;
        let mut stack: Vec<Token> = Vec::new();
        loop
            invariant
                source@.len() + stack@.len() == all.len(),
                forall|i: int| 0 <= i < source@.len() ==> source@[i] == all[i],
                forall|j: int| 0 <= j < stack@.len() ==> stack@[j] == all[all.len() - 1 - j],
            ensures
                stack@.len() == all.len(),
                forall|j: int| 0 <= j < stack@.len() ==> stack@[j] == all[all.len() - 1 - j],
            decreases source@.len(),
        {
            match source.pop() {
                Some(token) => stack.push(token),
                None => break ,
            }
        }
        let parser = Parser { tokens: stack };
        assert(parser.remaining() =~= tokens_view(all));
        parser
    }

    /// The next token, if one is left.
    fn peek(&self) -> (r: Option<&Token>)
        ensures
            match r {
                Some(token) => self.remaining().len() > 0 && token@ == self.remaining()[0],
                None => self.remaining().len() == 0,
            },
    {
        let n = self.tokens.len();
        if n == 0 {
            None
        } else {
            Some(&self.tokens[n - 1])
        }
    }

    /// Takes the next token, if one is left.
    fn next(&mut self) -> (r: Option<Token>)
        ensures
            match r {
                Some(token) => {
                    &&& old(self).remaining().len() > 0
                    &&& token@ == old(self).remaining()[0]
                    &&& final(self).remaining() == old(self).remaining().drop_first()
                },
                None => old(self).remaining().len() == 0 && final(self).remaining() == old(
                    self,
                ).remaining(),
            },
    {
        let r = self.tokens.pop();
        proof {
            if r is Some {
                assert(self.remaining() =~= old(self).remaining().drop_first());
            }
        }
        r
    }

    /// Takes the signs that the tokens start with.
    fn consume_signs(&mut self) -> (signs: Vec<UnaryOp>)
        ensures
            signs@ == leading_signs(old(self).remaining()),
            final(self).remaining() == old(self).remaining().skip(signs@.len() as int),
    {
        let ghost ts = self.remaining();
        let mut signs: Vec<UnaryOp> = Vec::new();
        proof {
            assert(ts.skip(0) =~= ts);
            assert(signs@ + leading_signs(ts) =~= leading_signs(ts));
        }
        loop
            invariant
                signs@.len() <= ts.len(),
                self.remaining() == ts.skip(signs@.len() as int),
                leading_signs(ts) == signs@ + leading_signs(self.remaining()),
            ensures
                signs@ == leading_signs(ts),
                self.remaining() == ts.skip(signs@.len() as int),
            decreases self.remaining().len(),
        {
            let sign = match self.peek() {
                Some(Token::Minus) => UnaryOp::Negate,
                Some(Token::Plus) => UnaryOp::Plus,
                _ => {
                    assert(signs@ + Seq::<UnaryOp>::empty() =~= signs@);
                    break ;
                },
            };
            let ghost before_step = self.remaining();
            let ghost taken = signs@;
            self.next();
            signs.push(sign);
            proof {
                assert(self.remaining() =~= ts.skip(signs@.len() as int));
                assert(taken + (seq![sign] + leading_signs(before_step.drop_first())) =~= signs@
                    + leading_signs(self.remaining()));
            }
        }
        signs
    }

    /// Parses the expression that the tokens start with, as the right
    /// operand of `last_op` (or standing alone, for `None`), and leaves the
    /// tokens that follow it.
    ///
    /// The parser calls itself for what stands between parentheses and for
    /// each right operand: how deep an expression may nest is bounded by the
    /// stack.
    pub fn parse_expr(&mut self, last_op: Option<BinaryOp>) -> (r: Result<Expr, ParseError>)
        ensures
            parsed_as(r, final(self).remaining(), parse_expr_spec(old(self).remaining(), last_op)),
        decreases old(self).remaining().len(), 2int,
    {
        let ghost ts = self.remaining();
        proof {
            lemma_leading_signs_len(ts);
        }
        let mut signs = self.consume_signs();
        let ghost all_signs = signs@;
        proof {
            lemma_parse_primary_progress(self.remaining());
        }
        let mut left = match self.parse_primary() {
            Ok(primary) => primary,
            Err(error) => return Err(error),
        };
        let ghost primary = left@;
        while signs.len() > 0
            invariant
                with_signs(all_signs, primary) == with_signs(signs@, left@),
            decreases signs@.len(),
        {
            let ghost longer = signs@;
            let ghost inner = left@;
            let sign = signs.pop().unwrap();
            left = Expr::un_op(sign, left);
            proof {
                assert(signs@.push(sign) =~= longer);
                lemma_with_signs_push(signs@, sign, inner);
            }
        }
        self.parse_operators(left, last_op)
    }

    /// Parses the primary that the tokens start with.
    #[verifier::loop_isolation(false)]
    fn parse_primary(&mut self) -> (r: Result<Expr, ParseError>)
        ensures
            parsed_as(r, final(self).remaining(), parse_primary_spec(old(self).remaining())),
        decreases old(self).remaining().len(), 1int,
    {
        let ghost ts = self.remaining();
        match self.next() {
            Some(Token::LeftParen) => {
                let inner = match self.parse_expr(None) {
                    Ok(inner) => inner,
                    Err(error) => return Err(error),
                };
                match self.next() {
                    Some(Token::RightParen) => Ok(inner),
                    Some(token) => Err(ParseError::NotAllowedHere(token)),
                    None => Err(ParseError::UnclosedParenthesis),
                }
            },
            Some(Token::NumLit(text)) => Ok(Expr::Lit(text)),
            Some(Token::Ident(name)) => {
                match self.peek() {
                    Some(Token::LeftParen) => {},
                    _ => {
                        return Ok(Expr::Variable(name));
                    },
                }
                self.next();
                match self.peek() {
                    Some(Token::RightParen) => {
                        return Err(ParseError::NoArguments(name));
                    },
                    _ => {},
                }
                proof {
                    assert(self.remaining() =~= ts.skip(2));
                    lemma_parse_expr_progress(ts.skip(2), None);
                }
                let first = match self.parse_expr(None) {
                    Ok(first) => first,
                    Err(error) => return Err(error),
                };
                let ghost first_view = first@;
                let ghost after_first = self.remaining();
                let mut args = ArgList::from_head(first);
                proof {
                    assert(exprs_view(args@) =~= seq![first_view]);
                }
                loop
                    invariant
                        self.remaining().len() <= after_first.len() < ts.len(),
                        parse_more_args_spec(seq![first_view], after_first) == parse_more_args_spec(
                            exprs_view(args@),
                            self.remaining(),
                        ),
                    decreases self.remaining().len(),
                {
                    let ghost here = self.remaining();
                    match self.next() {
                        Some(Token::RightParen) => {
                            let call = Expr::Call { func: name, args };
                            proof {
                                call.lemma_call_view();
                            }
                            return Ok(call);
                        },
                        Some(Token::Comma) => {},
                        Some(token) => {
                            return Err(ParseError::ExpectedComma(token));
                        },
                        None => {
                            return Err(ParseError::UnclosedParenthesis);
                        },
                    }
                    proof {
                        lemma_parse_expr_progress(here.drop_first(), None);
                    }
                    let ghost so_far = exprs_view(args@);
                    let arg = match self.parse_expr(None) {
                        Ok(arg) => arg,
                        Err(error) => return Err(error),
                    };
                    let ghost arg_view = arg@;
                    args.push(arg);
                    proof {
                        assert(exprs_view(args@) =~= so_far.push(arg_view));
                    }
                }
            },
            Some(token) => Err(ParseError::UnknownToken(token)),
            None => Err(ParseError::EmptyExpression),
        }
    }

    /// Folds into `left` each operator that binds under `min`, with its
    /// right operand.
    #[verifier::loop_isolation(false)]
    fn parse_operators(&mut self, left: Expr, min: Option<BinaryOp>) -> (r: Result<Expr, ParseError>)
        ensures
            parsed_as(
                r,
                final(self).remaining(),
                parse_operators_spec(left@, old(self).remaining(), min),
            ),
        decreases old(self).remaining().len(), 0int,
    {
        let ghost ts = self.remaining();
        let ghost first = left@;
        let mut left = left;
        loop
            invariant
                self.remaining().len() <= ts.len(),
                parse_operators_spec(first, ts, min) == parse_operators_spec(
                    left@,
                    self.remaining(),
                    min,
                ),
            decreases self.remaining().len(),
        {
            let op = match self.peek() {
                Some(Token::Plus) => BinaryOp::Add,
                Some(Token::Minus) => BinaryOp::Subtract,
                Some(Token::Cdot) => BinaryOp::DotProduct,
                Some(Token::Slash) => BinaryOp::Divide,
                _ => {
                    return Ok(left);
                },
            };
            let taken = match min {
                None => true,
                Some(outer) => op.binding_power() > outer.binding_power(),
            };
            if !taken {
                return Ok(left);
            }
            let ghost here = self.remaining();
            self.next();
            proof {
                lemma_parse_expr_progress(here.drop_first(), Some(op));
            }
            let right = match self.parse_expr(Some(op)) {
                Ok(right) => right,
                Err(error) => return Err(error),
            };
            left = Expr::bin_op(op, left, right);
        }
    }

    /// Finds the first `:=` of the first line.
    fn find_assignment(&self) -> (r: Option<usize>)
        ensures
            match r {
                Some(index) => assign_position(self.remaining()) == Some(index as int),
                None => assign_position(self.remaining()) is None,
            },
    {
        let n = self.tokens.len();
        let ghost ts = self.remaining();
        let mut i: usize = 0;
        proof {
            assert(ts.skip(0) =~= ts);
        }
        while i < n
            invariant
                i <= n,
                n == self.tokens@.len(),
                ts == self.remaining(),
                assign_position(ts) == shifted(assign_position(ts.skip(i as int)), i as int),
            decreases n - i,
        {
            match &self.tokens[n - 1 - i] {
                Token::Newline => {
                    return None;
                },
                Token::Assign => {
                    return Some(i);
                },
                _ => {},
            }
            proof {
                assert(ts.skip(i as int).drop_first() =~= ts.skip(i + 1));
            }
            i += 1;
        }
        None
    }

    /// Takes the first `count` tokens.
    fn take_front(&mut self, count: usize) -> (front: Vec<Token>)
        requires
            count <= old(self).remaining().len(),
        ensures
            tokens_view(front@) == old(self).remaining().take(count as int),
            final(self).remaining() == old(self).remaining().skip(count as int),
    {
        let ghost ts = self.remaining();
        let mut front: Vec<Token> = Vec::new();
        proof {
            assert(ts.skip(0) =~= ts);
            assert(tokens_view(front@) =~= ts.take(0));
        }
        while front.len() < count
            invariant
                front@.len() <= count <= ts.len(),
                tokens_view(front@) == ts.take(front@.len() as int),
                self.remaining() == ts.skip(front@.len() as int),
            decreases count - front@.len(),
        {
            let ghost taken = tokens_view(front@);
            match self.next() {
                Some(token) => {
                    front.push(token);
                    proof {
                        assert(tokens_view(front@) =~= taken.push(token@));
                        assert(tokens_view(front@) =~= ts.take(front@.len() as int));
                        assert(self.remaining() =~= ts.skip(front@.len() as int));
                    }
                },
                None => unreached(),
            }
        }
        front
    }

    /// Takes the newlines that the tokens start with.
    fn skip_newlines(&mut self)
        ensures
            final(self).remaining() == skip_newlines(old(self).remaining()),
    {
        loop
            invariant
                skip_newlines(old(self).remaining()) == skip_newlines(self.remaining()),
            ensures
                self.remaining() == skip_newlines(old(self).remaining()),
            decreases self.remaining().len(),
        {
            match self.peek() {
                Some(Token::Newline) => {},
                _ => {
                    break ;
                },
            }
            self.next();
        }
    }

    /// Parses the head of an item: the tokens before its `:=`.
    #[verifier::loop_isolation(false)]
    fn parse_head(head: Vec<Token>) -> (r: Result<(Ident, Option<ArgList<Ident>>), ParseError>)
        ensures
            match r {
                Ok(parsed) => parse_head_spec(tokens_view(head@)) == Ok::<_, ParseErrorView>(
                    head_view(parsed),
                ),
                Err(error) => parse_head_spec(tokens_view(head@)) == Err::<Head, _>(error@),
            },
    {
        let ghost ts = tokens_view(head@);
        let mut tokens = Parser::new(head);
        let name = match tokens.next() {
            Some(Token::Ident(name)) => name,
            Some(token) => {
                return Err(ParseError::UnknownTokenInAssignment(token));
            },
            None => {
                return Err(ParseError::EmptyAssignment);
            },
        };
        match tokens.next() {
            None => {
                return Ok((name, None));
            },
            Some(Token::LeftParen) => {},
            Some(token) => {
                return Err(ParseError::UnknownTokenInAssignment(token));
            },
        }
        let first = match tokens.next() {
            Some(Token::Ident(first)) => first,
            Some(token) => {
                return Err(ParseError::UnexpectedTokenInArgumentList(token));
            },
            None => {
                return Err(ParseError::UnclosedArgumentList);
            },
        };
        let ghost first_view = text_of(first);
        let mut args = ArgList::from_head(first);
        proof {
            assert(names_view(args@) =~= seq![first_view]);
            assert(tokens.remaining() =~= ts.skip(3));
        }
        loop
            invariant
                parse_params_spec(seq![first_view], ts.skip(3)) == parse_params_spec(
                    names_view(args@),
                    tokens.remaining(),
                ),
            decreases tokens.remaining().len(),
        {
            let ghost here = tokens.remaining();
            match tokens.next() {
                Some(Token::Comma) => {},
                Some(Token::RightParen) => {
                    return match tokens.next() {
                        None => Ok((name, Some(args))),
                        Some(token) => Err(ParseError::UnknownTokenInAssignment(token)),
                    };
                },
                Some(token) => {
                    return Err(ParseError::UnknownTokenInArgumentList(token));
                },
                None => {
                    return Err(ParseError::UnclosedArgumentList);
                },
            }
            let ghost so_far = names_view(args@);
            match tokens.next() {
                Some(Token::Ident(param)) => {
                    let ghost param_view = text_of(param);
                    args.push(param);
                    proof {
                        assert(names_view(args@) =~= so_far.push(param_view));
                        assert(tokens.remaining() =~= here.skip(2));
                    }
                },
                Some(token) => {
                    return Err(ParseError::ExpectedParameter(token));
                },
                None => {
                    return Err(ParseError::UnclosedArgumentList);
                },
            }
        }
    }

    /// Parses the items that the tokens hold.
    #[verifier::loop_isolation(false)]
    pub fn parse(&mut self) -> (r: Result<Vec<TopLevelItem>, ParseError>)
        ensures
            match r {
                Ok(items) => parse_items_spec(old(self).remaining()) == Ok::<_, ParseErrorView>(
                    items_view(items@),
                ),
                Err(error) => parse_items_spec(old(self).remaining()) == Err::<Seq<ItemView>, _>(
                    error@,
                ),
            },
    {
        let ghost all = self.remaining();
        let mut items: Vec<TopLevelItem> = Vec::new();
        proof {
            assert(items_view(items@) =~= Seq::empty());
            match parse_items_spec(all) {
                Ok(found) => assert(Seq::<ItemView>::empty() + found =~= found),
                Err(_) => {},
            }
        }
        loop
            invariant
                parse_items_spec(all) == before(
                    items_view(items@),
                    parse_items_spec(self.remaining()),
                ),
            decreases self.remaining().len(),
        {
            let ghost ts = self.remaining();
            let ghost so_far = items_view(items@);
            if self.peek().is_none() {
                assert(so_far + Seq::<ItemView>::empty() =~= so_far);
                return Ok(items);
            }
            proof {
                lemma_assign_position_bounds(ts);
            }
            let head = match self.find_assignment() {
                Some(position) => {
                    let front = self.take_front(position);
                    let head = match Parser::parse_head(front) {
                        Ok(head) => head,
                        Err(error) => return Err(error),
                    };
                    self.next();
                    proof {
                        assert(self.remaining() =~= ts.skip(position + 1));
                    }
                    Some(head)
                },
                None => None,
            };
            let ghost body_tokens = self.remaining();
            proof {
                lemma_parse_expr_progress(body_tokens, None);
            }
            let body = match self.parse_expr(None) {
                Ok(body) => body,
                Err(error) => return Err(error),
            };
            let ghost rest = self.remaining();
            let item = match head {
                Some((name, Some(args))) => TopLevelItem::FunctionDef { name, args, body },
                Some((name, None)) => TopLevelItem::Assignment { name, body },
                None => TopLevelItem::Expression(body),
            };
            let ghost item_view = item@;
            items.push(item);
            proof {
                assert(items_view(items@) =~= so_far.push(item_view));
                assert(so_far.push(item_view) =~= so_far + seq![item_view]);
            }
            match self.peek() {
                Some(Token::Newline) => {
                    self.skip_newlines();
                    proof {
                        lemma_skip_newlines_len(rest);
                        match parse_items_spec(self.remaining()) {
                            Ok(more) => assert(so_far + (seq![item_view] + more) =~= (so_far
                                + seq![item_view]) + more),
                            Err(_) => {},
                        }
                    }
                },
                None => {
                    return Ok(items);
                },
                Some(_) => {
                    return match self.next() {
                        Some(token) => Err(ParseError::ExpectedNewline(token)),
                        None => unreached(),
                    };
                },
            }
        }
    }
}

/// Reads and parses the items of `input`.
pub fn parse(input: &str) -> (r: Result<Vec<TopLevelItem>, ParseError>)
    requires
        is_ascii(input),
    ensures
        match r {
            Ok(items) => parse_spec(input@) == Ok::<_, ParseErrorView>(items_view(items@)),
            Err(error) => parse_spec(input@) == Err::<Seq<ItemView>, _>(error@),
        },
{
    let tokens = match lex(input) {
        Ok(tokens) => tokens,
        Err(error) => return Err(ParseError::Lex(error)),
    };
    Parser::new(tokens).parse()
}

} // verus!
