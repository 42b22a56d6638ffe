//! Text from syntax: how tokens, expressions and items are written out.

use crate::ast::{
    names_view, ArgList, BinaryOp, Expr, ExprView, Ident, ItemView, TopLevelItem, UnaryOp,
};
use crate::lex::{Token, TokenView};
use vstd::prelude::*;
use vstd::string::*;

verus! {

/// The character of a binary operator.
pub open spec fn operator_char(op: BinaryOp) -> char {
    match op {
        BinaryOp::Add => '+',
        BinaryOp::Subtract => '-',
        BinaryOp::DotProduct => '*',
        BinaryOp::Divide => '/',
    }
}

/// The character of a sign.
pub open spec fn sign_char(op: UnaryOp) -> char {
    match op {
        UnaryOp::Negate => '-',
        UnaryOp::Plus => '+',
    }
}

/// Whether an expression is a literal, a variable or a call: what is
/// written without parentheses wherever it stands.
pub open spec fn is_atom(e: ExprView) -> bool {
    e is Lit || e is Variable || e is Call
}

/// `text` between parentheses.
pub open spec fn parenthesized(text: Seq<char>) -> Seq<char> {
    seq!['('] + text + seq![')']
}

/// The text of an expression. An operand of a binary operator stands in
/// parentheses unless it is an atom, and the operand of a sign where it is a
/// binary operation.
pub open spec fn expr_text(e: ExprView) -> Seq<char>
    decreases e, 0nat,
{
    match e {
        ExprView::Lit(text) => text,
        ExprView::Variable(name) => name,
        ExprView::Call { func, args } => func + parenthesized(args_text(args, args.len())),
        ExprView::UnOp { op, arg } => seq![sign_char(op)] + if *arg is BinOp {
            parenthesized(expr_text(*arg))
        } else {
            expr_text(*arg)
        },
        ExprView::BinOp { op, left, right } => (if is_atom(*left) {
            expr_text(*left)
        } else {
            parenthesized(expr_text(*left))
        }) + seq![' ', operator_char(op), ' '] + if is_atom(*right) {
            expr_text(*right)
        } else {
            parenthesized(expr_text(*right))
        },
    }
}

/// The text of the first `count` of `args`, with `, ` between them.
pub open spec fn args_text(args: Seq<ExprView>, count: nat) -> Seq<char>
    decreases args, count,
{
    if count == 0 || count > args.len() {
        Seq::empty()
    } else if count == 1 {
        expr_text(args[0])
    } else {
        args_text(args, (count - 1) as nat) + seq![',', ' '] + expr_text(args[count - 1])
    }
}

/// The text of the first `count` of `names`, with `, ` between them.
pub open spec fn names_text(names: Seq<Seq<char>>, count: nat) -> Seq<char>
    decreases count,
{
    if count == 0 || count > names.len() {
        Seq::empty()
    } else if count == 1 {
        names[0]
    } else {
        names_text(names, (count - 1) as nat) + seq![',', ' '] + names[count - 1]
    }
}

/// The text of an item: its expression, after `name := ` or
/// `name(parameters) := ` where it binds a name.
pub open spec fn item_text(item: ItemView) -> Seq<char> {
    match item {
        ItemView::Expression(body) => expr_text(body),
        ItemView::Assignment { name, body } => name + seq![' ', ':', '=', ' '] + expr_text(body),
        ItemView::FunctionDef { name, args, body } => name + parenthesized(
            names_text(args, args.len()),
        ) + seq![' ', ':', '=', ' '] + expr_text(body),
    }
}

/// Appends one character of the language's punctuation to `out`.
fn put(out: &mut String, c: char)
    requires
        c == '(' || c == ')' || c == ' ' || c == ',' || c == '+' || c == '-' || c == '*' || c
            == '/' || c == ':' || c == '=',
    ensures
        final(out)@ == old(out)@.push(c),
{
    proof {
        reveal_strlit("(");
        reveal_strlit(")");
        reveal_strlit(" ");
        reveal_strlit(",");
        reveal_strlit("+");
        reveal_strlit("-");
        reveal_strlit("*");
        reveal_strlit("/");
        reveal_strlit(":");
        reveal_strlit("=");
    }
    let piece = if c == '(' {
        "("
    } else if c == ')' {
        ")"
    } else if c == ' ' {
        " "
    } else if c == ',' {
        ","
    } else if c == '+' {
        "+"
    } else if c == '-' {
        "-"
    } else if c == '*' {
        "*"
    } else if c == '/' {
        "/"
    } else if c == ':' {
        ":"
    } else {
        "="
    };
    assert(piece@ =~= seq![c]);
    out.append(piece);
    assert(out@ =~= old(out)@.push(c));
}

impl BinaryOp {
    /// The character that the operator is written with.
    pub fn symbol(&self) -> (c: char)
        ensures
            c == operator_char(*self),
    {
        match self {
            BinaryOp::Add => '+',
            BinaryOp::Subtract => '-',
            BinaryOp::DotProduct => '*',
            BinaryOp::Divide => '/',
        }
    }
}

impl UnaryOp {
    /// The character that the sign is written with.
    pub fn symbol(&self) -> (c: char)
        ensures
            c == sign_char(*self),
    {
        match self {
            UnaryOp::Negate => '-',
            UnaryOp::Plus => '+',
        }
    }
}

impl Expr {
    /// The text of the expression.
    pub fn to_string(&self) -> (r: String)
        ensures
            r@ == expr_text(self@),
    {
        let mut out = String::new();
        self.write_to(&mut out);
        assert(Seq::<char>::empty() + expr_text(self@) =~= expr_text(self@));
        out
    }

    /// Appends the text of the expression to `out`.
    #[verifier::loop_isolation(false)]
    pub fn write_to(&self, out: &mut String)
        ensures
            final(out)@ == old(out)@ + expr_text(self@),
        decreases self, 0nat,
    {
        let ghost start = out@;
        match self {
            Expr::Lit(text) => out.append(text.as_str()),
            Expr::Variable(name) => out.append(name.as_str()),
            Expr::Call { func, args } => {
                proof {
                    self.lemma_call_view();
                }
                let ghost views = self@->args;
                out.append(func.as_str());
                put(out, '(');
                let ghost opened = out@;
                let n = args.len();
                let mut i: usize = 0;
                assert(opened + args_text(views, 0) =~= opened);
                while i < n
                    invariant
                        i <= n,
                        out@ == opened + args_text(views, i as nat),
                    decreases n - i,
                {
                    if i > 0 {
                        put(out, ',');
                        put(out, ' ');
                    }
                    proof {
                        args.lemma_element_decreases(i as int);
                    }
                    let ghost joined = out@;
                    args.get(i).write_to(out);
                    proof {
                        if i > 0 {
                            assert(out@ =~= opened + (args_text(views, i as nat) + seq![',', ' ']
                                + expr_text(views[i as int])));
                        } else {
                            assert(out@ =~= opened + expr_text(views[0]));
                        }
                    }
                    i += 1;
                }
                put(out, ')');
                assert(out@ =~= start + expr_text(self@));
            },
            Expr::UnOp { op, arg } => {
                put(out, op.symbol());
                let nested = match **arg {
                    Expr::BinOp { .. } => true,
                    _ => false,
                };
                if nested {
                    put(out, '(');
                }
                arg.write_to(out);
                if nested {
                    put(out, ')');
                }
                assert(out@ =~= start + expr_text(self@));
            },
            Expr::BinOp { op, left, right } => {
                left.write_operand(out);
                put(out, ' ');
                put(out, op.symbol());
                put(out, ' ');
                right.write_operand(out);
                assert(out@ =~= start + expr_text(self@));
            },
        }
    }

    /// Appends the expression to `out` as an operand of a binary operator.
    fn write_operand(&self, out: &mut String)
        ensures
            final(out)@ == old(out)@ + if is_atom(self@) {
                expr_text(self@)
            } else {
                parenthesized(expr_text(self@))
            },
        decreases self, 1nat,
    {
        let atom = match self {
            Expr::Lit(_) => true,
            Expr::Variable(_) => true,
            Expr::Call { .. } => true,
            _ => false,
        };
        if atom {
            self.write_to(out);
        } else {
            put(out, '(');
            self.write_to(out);
            put(out, ')');
            assert(out@ =~= old(out)@ + parenthesized(expr_text(self@)));
        }
    }
}

/// The text that a token is shown as: its own text for a name or a
/// literal, its characters for punctuation, and a backslash and `n` for a
/// newline.
pub open spec fn token_text(token: TokenView) -> Seq<char> {
    match token {
        TokenView::Ident(text) => text,
        TokenView::NumLit(text) => text,
        TokenView::Newline => seq!['\\', 'n'],
        TokenView::LeftParen => seq!['('],
        TokenView::RightParen => seq![')'],
        TokenView::Comma => seq![','],
        TokenView::Dot => seq!['.'],
        TokenView::Assign => seq![':', '='],
        TokenView::Plus => seq!['+'],
        TokenView::Minus => seq!['-'],
        TokenView::Cdot => seq!['*'],
        TokenView::Slash => seq!['/'],
    }
}

impl Token {
    /// The text that the token is shown as.
    pub fn to_string(&self) -> (r: String)
        ensures
            r@ == token_text(self@),
    {
        proof {
            reveal_strlit("\\n");
            reveal_strlit("(");
            reveal_strlit(")");
            reveal_strlit(",");
            reveal_strlit(".");
            reveal_strlit(":=");
            reveal_strlit("+");
            reveal_strlit("-");
            reveal_strlit("*");
            reveal_strlit("/");
        }
        let text = match self {
            Token::Ident(text) => text.as_str(),
            Token::NumLit(text) => text.as_str(),
            Token::Newline => "\\n",
            Token::LeftParen => "(",
            Token::RightParen => ")",
            Token::Comma => ",",
            Token::Dot => ".",
            Token::Assign => ":=",
            Token::Plus => "+",
            Token::Minus => "-",
            Token::Cdot => "*",
            Token::Slash => "/",
        };
        assert(text@ =~= token_text(self@));
        String::from_str(text)
    }
}

impl ArgList<Ident> {
    /// The names of the list, with `, ` between them.
    pub fn to_string(&self) -> (r: String)
        ensures
            r@ == names_text(names_view(self@), self@.len()),
    {
        let mut out = String::new();
        let ghost names = names_view(self@);
        let n = self.len();
        let mut i: usize = 0;
        assert(out@ =~= names_text(names, 0));
        while i < n
            invariant
                i <= n,
                n == self@.len(),
                names == names_view(self@),
                out@ == names_text(names, i as nat),
            decreases n - i,
        {
            let ghost joined = out@;
            if i > 0 {
                put(&mut out, ',');
                put(&mut out, ' ');
            }
            out.append(self.get(i).as_str());
            proof {
                if i > 0 {
                    assert(out@ =~= joined + seq![',', ' '] + names[i as int]);
                } else {
                    assert(out@ =~= names[0]);
                }
            }
            i += 1;
        }
        out
    }
}

impl TopLevelItem {
    /// The text of the item.
    pub fn to_string(&self) -> (r: String)
        ensures
            r@ == item_text(self@),
    {
        match self {
            TopLevelItem::Expression(body) => body.to_string(),
            TopLevelItem::Assignment { name, body } => {
                let mut out = String::from_str(name.as_str());
                put(&mut out, ' ');
                put(&mut out, ':');
                put(&mut out, '=');
                put(&mut out, ' ');
                body.write_to(&mut out);
                assert(out@ =~= item_text(self@));
                out
            },
            TopLevelItem::FunctionDef { name, args, body } => {
                let mut out = String::from_str(name.as_str());
                put(&mut out, '(');
                let params = args.to_string();
                out.append(params.as_str());
                put(&mut out, ')');
                put(&mut out, ' ');
                put(&mut out, ':');
                put(&mut out, '=');
                put(&mut out, ' ');
                body.write_to(&mut out);
                assert(out@ =~= item_text(self@));
                out
            },
        }
    }
}

} // verus!
