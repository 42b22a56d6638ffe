//! The syntax tree: operators, argument lists, expressions and top-level
//! items, each with the mathematical value that contracts speak of.

use crate::ident::text_of;
use ecow::EcoString;
use vstd::prelude::*;

verus! {

broadcast use {
    vstd::std_specs::vec::axiom_vec_decreases_to_view,
    vstd::std_specs::vec::axiom_vec_index_decreases,
    vstd::seq::axiom_seq_index_decreases,
};

/// A name of the language.
pub type Ident = EcoString;

/// A binary operator.
#[derive(Debug, Clone, Copy, PartialEq, Eq, Structural)]
pub enum BinaryOp {
    Add,
    Subtract,
    DotProduct,
    Divide,
}

impl BinaryOp {
    /// How tightly the operator binds: the additive operators at 1, the
    /// multiplicative ones at 2.
    pub open spec fn power(self) -> nat {
        match self {
            BinaryOp::Add => 1,
            BinaryOp::Subtract => 1,
            BinaryOp::DotProduct => 2,
            BinaryOp::Divide => 2,
        }
    }

    /// How tightly the operator binds.
    pub fn binding_power(&self) -> (r: u8)
        ensures
            r == self.power(),
    {
        match self {
            BinaryOp::Add => 1,
            BinaryOp::Subtract => 1,
            BinaryOp::DotProduct => 2,
            BinaryOp::Divide => 2,
        }
    }
}

/// A prefix sign.
#[derive(Debug, Clone, Copy, PartialEq, Eq, Structural)]
pub enum UnaryOp {
    Negate,
    Plus,
}

/// A sequence with at least one element: the arguments of a call, or the
/// parameters of a function. It starts from its head and grows at the end.
#[derive(Debug, Clone, PartialEq, Eq)]
pub struct ArgList<T>(Vec<T>);

impl<T> View for ArgList<T> {
    type V = Seq<T>;

    closed spec fn view(&self) -> Seq<T> {
        self.0@
    }
}

impl<T> ArgList<T> {
    /// A list has a head. `from_head` and `push`, the only ways to make or
    /// change a list, both leave it so.
    pub open spec fn wf(&self) -> bool {
        self@.len() >= 1
    }

    /// The list of one element.
    pub fn from_head(head: T) -> (r: Self)
        ensures
            r@ == seq![head],
            r.wf(),
    {
        let mut items = Vec::new();
        items.push(head);
        ArgList(items)
    }

    /// Adds `value` at the end.
    pub fn push(&mut self, value: T)
        ensures
            final(self)@ == old(self)@.push(value),
            final(self).wf(),
    {
        self.0.push(value)
    }

    /// The number of elements.
    pub fn len(&self) -> (n: usize)
        ensures
            n == self@.len(),
    {
        self.0.len()
    }

    /// The element at `index`.
    pub fn get(&self, index: usize) -> (r: &T)
        requires
            index < self@.len(),
        ensures
            *r == self@[index as int],
    {
        &self.0[index]
    }

    /// The elements, in order.
    pub fn as_slice(&self) -> (r: &[T])
        ensures
            r@ == self@,
    {
        self.0.as_slice()
    }

    /// An element of a list is a smaller value than the list.
    pub proof fn lemma_element_decreases(self, index: int)
        requires
            0 <= index < self@.len(),
        ensures
            decreases_to!(self => self@[index]),
    {
    }
}

/// An expression.
#[derive(Debug, PartialEq, Eq)]
#[allow(inconsistent_fields)]
pub enum Expr {
    /// A numeric literal, as it was written.
    Lit(EcoString),
    Variable(Ident),
    Call { func: Ident, args: ArgList<Expr> },
    UnOp { op: UnaryOp, arg: Box<Expr> },
    BinOp { op: BinaryOp, left: Box<Expr>, right: Box<Expr> },
}

/// What an `Expr` is, with each name and literal as its characters.
#[allow(inconsistent_fields)]
pub ghost enum ExprView {
    Lit(Seq<char>),
    Variable(Seq<char>),
    Call { func: Seq<char>, args: Seq<ExprView> },
    UnOp { op: UnaryOp, arg: Box<ExprView> },
    BinOp { op: BinaryOp, left: Box<ExprView>, right: Box<ExprView> },
}

impl Expr {
    /// The mathematical value of the expression.
    pub open spec fn model(self) -> ExprView
        decreases self,
    {
        match self {
            Expr::Lit(text) => ExprView::Lit(text_of(text)),
            Expr::Variable(name) => ExprView::Variable(text_of(name)),
            Expr::Call { func, args } => ExprView::Call {
                func: text_of(func),
                args: Seq::new(
                    args@.len(),
                    |i: int|
                        if 0 <= i < args@.len() {
                            args@[i].model()
                        } else {
                            arbitrary()
                        },
                ),
            },
            Expr::UnOp { op, arg } => ExprView::UnOp { op, arg: Box::new(arg.model()) },
            Expr::BinOp { op, left, right } => ExprView::BinOp {
                op,
                left: Box::new(left.model()),
                right: Box::new(right.model()),
            },
        }
    }
}

impl View for Expr {
    type V = ExprView;

    open spec fn view(&self) -> ExprView {
        self.model()
    }
}

impl Clone for Expr {
    fn clone(&self) -> (r: Self)
        ensures
            r@ == self@,
    {
        self.duplicate()
    }
}

/// The values of `exprs`, in order.
pub open spec fn exprs_view(exprs: Seq<Expr>) -> Seq<ExprView> {
    Seq::new(exprs.len(), |i: int| exprs[i]@)
}

impl Expr {
    /// The value of a call holds the values of its arguments.
    pub proof fn lemma_call_view(self)
        requires
            self is Call,
        ensures
            self@ == (ExprView::Call {
                func: text_of(self->func),
                args: exprs_view(self->args@),
            }),
    {
        assert(self@->args =~= exprs_view(self->args@));
    }

    /// A copy of the expression.
    #[verifier::loop_isolation(false)]
    fn duplicate(&self) -> (r: Self)
        ensures
            r@ == self@,
        decreases self,
    {
        match self {
            Expr::Lit(text) => Expr::Lit(text.clone()),
            Expr::Variable(name) => Expr::Variable(name.clone()),
            Expr::Call { func, args } => {
                let mut copies: Vec<Expr> = Vec::new();
                let n = args.0.len();
                let mut i: usize = 0;
                while i < n
                    invariant
                        i <= n,
                        n == args.0@.len(),
                        copies@.len() == i,
                        forall|j: int| 0 <= j < i ==> copies@[j]@ == #[trigger] args.0@[j]@,
                    decreases n - i,
                {
                    copies.push(args.0[i].duplicate());
                    i += 1;
                }
                let copy = Expr::Call { func: func.clone(), args: ArgList(copies) };
                proof {
                    self.lemma_call_view();
                    copy.lemma_call_view();
                    assert(exprs_view(copies@) =~= exprs_view(args.0@));
                }
                copy
            },
            Expr::UnOp { op, arg } => Expr::UnOp { op: *op, arg: Box::new(arg.duplicate()) },
            Expr::BinOp { op, left, right } => Expr::BinOp {
                op: *op,
                left: Box::new(left.duplicate()),
                right: Box::new(right.duplicate()),
            },
        }
    }

    /// `arg` under the sign `op`.
    pub fn un_op(op: UnaryOp, arg: Self) -> (r: Self)
        ensures
            r@ == (ExprView::UnOp { op, arg: Box::new(arg@) }),
    {
        let arg = Box::new(arg);
        Expr::UnOp { op, arg }
    }

    /// `left` and `right` joined by `op`.
    pub fn bin_op(op: BinaryOp, left: Self, right: Self) -> (r: Self)
        ensures
            r@ == (ExprView::BinOp { op, left: Box::new(left@), right: Box::new(right@) }),
    {
        let left = Box::new(left);
        let right = Box::new(right);
        Expr::BinOp { op, left, right }
    }
}

/// One statement of a program.
#[derive(Debug, Clone, PartialEq, Eq)]
pub enum TopLevelItem {
    /// A bare expression.
    Expression(Expr),
    /// `name := body`.
    Assignment { name: Ident, body: Expr },
    /// `name(args) := body`.
    FunctionDef { name: Ident, args: ArgList<Ident>, body: Expr },
}

/// What a `TopLevelItem` is, with each name as its characters.
pub ghost enum ItemView {
    Expression(ExprView),
    Assignment { name: Seq<char>, body: ExprView },
    FunctionDef { name: Seq<char>, args: Seq<Seq<char>>, body: ExprView },
}

/// The characters of each name of `names`, in order.
pub open spec fn names_view(names: Seq<Ident>) -> Seq<Seq<char>> {
    Seq::new(names.len(), |i: int| text_of(names[i]))
}

impl View for TopLevelItem {
    type V = ItemView;

    open spec fn view(&self) -> ItemView {
        match self {
            TopLevelItem::Expression(expr) => ItemView::Expression(expr@),
            TopLevelItem::Assignment { name, body } => ItemView::Assignment {
                name: text_of(*name),
                body: body@,
            },
            TopLevelItem::FunctionDef { name, args, body } => ItemView::FunctionDef {
                name: text_of(*name),
                args: names_view(args@),
                body: body@,
            },
        }
    }
}

/// The values of `items`, in order.
pub open spec fn items_view(items: Seq<TopLevelItem>) -> Seq<ItemView> {
    Seq::new(items.len(), |i: int| items[i]@)
}

} // verus!
