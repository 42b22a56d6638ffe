//! The interpreter: an environment of bindings, and the evaluation of
//! expressions against it.
//!
//! Evaluation resolves every name and every call of an expression. What it
//! yields is a `Number`: the arithmetic that is left over literals, which
//! the caller carries out in floating point. No arithmetic fails: a division
//! by zero is part of a number like any other.
//!
//! A name is looked up when the expression that holds it is evaluated. So
//! the body of a function may call functions that are defined after it, and
//! itself: a function is bound before any of its calls is evaluated. Calls
//! may nest as deep as there are bindings. An evaluation that needs more
//! would need more at every limit, and fails with
//! `EvalError::EndlessRecursion`.

use crate::ast::{
    exprs_view, items_view, names_view, ArgList, BinaryOp, Expr, ExprView, Ident, ItemView,
    TopLevelItem, UnaryOp,
};
use crate::builtins::BuiltinFunction;
use crate::ident::{from_slice, text_of};
use crate::table::NameMap;
use ecow::EcoString;
use std::rc::Rc;
use vstd::prelude::*;

verus! {

/// A number, as the arithmetic that yields it.
#[derive(Debug, PartialEq, Eq)]
pub enum Number {
    /// A literal, as it was written.
    Lit(EcoString),
    /// A number that the caller has supplied, as its IEEE 754 bits.
    Given(u64),
    /// The negation of a number.
    Negated(Rc<Number>),
    /// Two numbers joined by an operator.
    Combined { op: BinaryOp, left: Rc<Number>, right: Rc<Number> },
    /// A builtin function applied to a number.
    Applied { func: BuiltinFunction, arg: Rc<Number> },
}

/// What a `Number` is, with each literal as its characters.
pub ghost enum NumberView {
    Lit(Seq<char>),
    Given(u64),
    Negated(Box<NumberView>),
    Combined { op: BinaryOp, left: Box<NumberView>, right: Box<NumberView> },
    Applied { func: BuiltinFunction, arg: Box<NumberView> },
}

impl Number {
    /// The mathematical value of the number.
    pub open spec fn model(self) -> NumberView
        decreases self,
    {
        match self {
            Number::Lit(text) => NumberView::Lit(text_of(text)),
            Number::Given(bits) => NumberView::Given(bits),
            Number::Negated(arg) => NumberView::Negated(Box::new(arg.model())),
            Number::Combined { op, left, right } => NumberView::Combined {
                op,
                left: Box::new(left.model()),
                right: Box::new(right.model()),
            },
            Number::Applied { func, arg } => NumberView::Applied {
                func,
                arg: Box::new(arg.model()),
            },
        }
    }
}

impl View for Number {
    type V = NumberView;

    open spec fn view(&self) -> NumberView {
        self.model()
    }
}

/// `Rc::clone` makes another pointer to the same value.
#[verifier::external_body]
fn share(number: &Rc<Number>) -> (r: Rc<Number>)
    ensures
        r == *number,
{
    Rc::clone(number)
}

/// What a name is bound to.
#[derive(Debug)]
pub enum Binding {
    Value(Rc<Number>),
    Function { args: ArgList<Ident>, body: Expr },
    Builtin(BuiltinFunction),
}

/// What a `Binding` is, with each name as its characters.
pub ghost enum BindingView {
    Value(NumberView),
    Function { args: Seq<Seq<char>>, body: ExprView },
    Builtin(BuiltinFunction),
}

impl View for Binding {
    type V = BindingView;

    open spec fn view(&self) -> BindingView {
        match self {
            Binding::Value(number) => BindingView::Value(number@),
            Binding::Function { args, body } => BindingView::Function {
                args: names_view(args@),
                body: body@,
            },
            Binding::Builtin(func) => BindingView::Builtin(*func),
        }
    }
}

/// Why an item cannot be added, or an expression cannot be evaluated.
#[derive(Debug, Clone, PartialEq, Eq)]
pub enum EvalError {
    /// A variable is defined under a name that is bound.
    VariableAlreadyBound(Ident),
    /// A function is defined under a name that is bound.
    FunctionAlreadyBound(Ident),
    /// A function is defined with a parameter whose name is bound.
    ArgumentAlreadyBound(Ident),
    /// A variable is read that nothing binds.
    UndefinedBinding(Ident),
    /// A function is read as a variable.
    NotAVariable(Ident),
    /// A function is called that nothing binds.
    UndefinedFunction(Ident),
    /// A variable is called.
    NotAFunction(Ident),
    /// A function is called with another number of arguments than it takes.
    WrongArgumentCount { given: usize, expected: usize },
    /// Calls are nested deeper than there are bindings: one of the functions
    /// calls itself, directly or through others, and would do so at every
    /// depth.
    EndlessRecursion(Ident),
}

/// What an `EvalError` is, with each name as its characters.
pub ghost enum EvalErrorView {
    VariableAlreadyBound(Seq<char>),
    FunctionAlreadyBound(Seq<char>),
    ArgumentAlreadyBound(Seq<char>),
    UndefinedBinding(Seq<char>),
    NotAVariable(Seq<char>),
    UndefinedFunction(Seq<char>),
    NotAFunction(Seq<char>),
    WrongArgumentCount { given: nat, expected: nat },
    EndlessRecursion(Seq<char>),
}

impl View for EvalError {
    type V = EvalErrorView;

    open spec fn view(&self) -> EvalErrorView {
        match self {
            EvalError::VariableAlreadyBound(name) => EvalErrorView::VariableAlreadyBound(
                text_of(*name),
            ),
            EvalError::FunctionAlreadyBound(name) => EvalErrorView::FunctionAlreadyBound(
                text_of(*name),
            ),
            EvalError::ArgumentAlreadyBound(name) => EvalErrorView::ArgumentAlreadyBound(
                text_of(*name),
            ),
            EvalError::UndefinedBinding(name) => EvalErrorView::UndefinedBinding(text_of(*name)),
            EvalError::NotAVariable(name) => EvalErrorView::NotAVariable(text_of(*name)),
            EvalError::UndefinedFunction(name) => EvalErrorView::UndefinedFunction(text_of(*name)),
            EvalError::NotAFunction(name) => EvalErrorView::NotAFunction(text_of(*name)),
            EvalError::WrongArgumentCount { given, expected } => EvalErrorView::WrongArgumentCount {
                given: *given as nat,
                expected: *expected as nat,
            },
            EvalError::EndlessRecursion(name) => EvalErrorView::EndlessRecursion(text_of(*name)),
        }
    }
}

/// The bindings of an interpreter.
pub type Bindings = Map<Seq<char>, BindingView>;

/// The arguments of a call in evaluation, by the names of its parameters.
pub type Scope = Map<Seq<char>, NumberView>;

/// A number, or the error that kept it from being found.
pub type Evaluated = Result<NumberView, EvalErrorView>;

/// The scope of a call: each of the first `count` parameters bound to its
/// value, a later parameter in place of an earlier one of the same name.
pub open spec fn bind_params(params: Seq<Seq<char>>, values: Seq<NumberView>, count: nat) -> Scope
    decreases count,
{
    if count == 0 {
        Map::empty()
    } else {
        bind_params(params, values, (count - 1) as nat).insert(
            params[count - 1],
            values[count - 1],
        )
    }
}

/// What `expr` evaluates to under the bindings `env` and the arguments
/// `scope`, with calls nested at most `depth` deep.
///
/// A variable is an argument, or else a value of the environment. A call
/// finds its function in the environment alone; its arguments are evaluated
/// in the caller's scope, from left to right, and the body in a scope that
/// holds them and nothing else. A sign and an operator evaluate their
/// operands, the left one first.
pub open spec fn eval_spec(env: Bindings, scope: Scope, expr: ExprView, depth: nat) -> Evaluated
    decreases depth, expr, 0nat,
{
    match expr {
        ExprView::Lit(text) => Ok(NumberView::Lit(text)),
        ExprView::Variable(name) => {
            if scope.contains_key(name) {
                Ok(scope[name])
            } else if env.contains_key(name) {
                match env[name] {
                    BindingView::Value(number) => Ok(number),
                    _ => Err(EvalErrorView::NotAVariable(name)),
                }
            } else {
                Err(EvalErrorView::UndefinedBinding(name))
            }
        },
        ExprView::Call { func, args } => {
            if !env.contains_key(func) {
                Err(EvalErrorView::UndefinedFunction(func))
            } else {
                match env[func] {
                    BindingView::Value(_) => Err(EvalErrorView::NotAFunction(func)),
                    BindingView::Builtin(builtin) => {
                        if args.len() != 1 {
                            Err(
                                EvalErrorView::WrongArgumentCount {
                                    given: args.len(),
                                    expected: 1,
                                },
                            )
                        } else {
                            match eval_spec(env, scope, args[0], depth) {
                                Ok(number) => Ok(
                                    NumberView::Applied { func: builtin, arg: Box::new(number) },
                                ),
                                Err(e) => Err(e),
                            }
                        }
                    },
                    BindingView::Function { args: params, body } => {
                        if args.len() != params.len() {
                            Err(
                                EvalErrorView::WrongArgumentCount {
                                    given: args.len(),
                                    expected: params.len(),
                                },
                            )
                        } else {
                            match eval_args_spec(env, scope, args, args.len(), depth) {
                                Err(e) => Err(e),
                                Ok(values) => {
                                    if depth == 0 {
                                        Err(EvalErrorView::EndlessRecursion(func))
                                    } else {
                                        eval_spec(
                                            env,
                                            bind_params(params, values, params.len()),
                                            body,
                                            (depth - 1) as nat,
                                        )
                                    }
                                },
                            }
                        }
                    },
                }
            }
        },
        ExprView::UnOp { op, arg } => match eval_spec(env, scope, *arg, depth) {
            Ok(number) => Ok(
                match op {
                    UnaryOp::Negate => NumberView::Negated(Box::new(number)),
                    UnaryOp::Plus => number,
                },
            ),
            Err(e) => Err(e),
        },
        ExprView::BinOp { op, left, right } => match eval_spec(env, scope, *left, depth) {
            Err(e) => Err(e),
            Ok(left) => match eval_spec(env, scope, *right, depth) {
                Err(e) => Err(e),
                Ok(right) => Ok(
                    NumberView::Combined { op, left: Box::new(left), right: Box::new(right) },
                ),
            },
        },
    }
}

/// What the first `count` of `args` evaluate to, or the error of the first
/// of them that has one.
pub open spec fn eval_args_spec(
    env: Bindings,
    scope: Scope,
    args: Seq<ExprView>,
    count: nat,
    depth: nat,
) -> Result<Seq<NumberView>, EvalErrorView>
    decreases depth, args, count,
{
    if count == 0 || count > args.len() {
        Ok(Seq::empty())
    } else {
        match eval_args_spec(env, scope, args, (count - 1) as nat, depth) {
            Err(e) => Err(e),
            Ok(values) => match eval_spec(env, scope, args[count - 1], depth) {
                Err(e) => Err(e),
                Ok(value) => Ok(values.push(value)),
            },
        }
    }
}

/// Evaluating more arguments keeps the error of an earlier one.
pub proof fn lemma_eval_args_error_stays(
    env: Bindings,
    scope: Scope,
    args: Seq<ExprView>,
    count: nat,
    more: nat,
    depth: nat,
)
    requires
        count <= more <= args.len(),
        eval_args_spec(env, scope, args, count, depth) is Err,
    ensures
        eval_args_spec(env, scope, args, more, depth) == eval_args_spec(
            env,
            scope,
            args,
            count,
            depth,
        ),
    decreases more,
{
    if count < more {
        lemma_eval_args_error_stays(env, scope, args, count, (more - 1) as nat, depth);
    }
}

/// The scope of a call depends on the values of its parameters alone.
pub proof fn lemma_bind_params_agree(
    params: Seq<Seq<char>>,
    values: Seq<NumberView>,
    others: Seq<NumberView>,
    count: nat,
)
    requires
        count <= values.len(),
        count <= others.len(),
        forall|i: int| 0 <= i < count ==> values[i] == others[i],
    ensures
        bind_params(params, values, count) == bind_params(params, others, count),
    decreases count,
{
    if count > 0 {
        lemma_bind_params_agree(params, values, others, (count - 1) as nat);
    }
}

/// What an interpreter holds.
pub ghost struct InterpreterView {
    /// What each bound name is bound to.
    pub bindings: Bindings,
    /// How many bindings were made, which is how deep calls may nest.
    pub call_limit: nat,
    /// The value of each expression and assignment, in order, with the name
    /// that an assignment gave it.
    pub constants: Seq<(Option<Seq<char>>, NumberView)>,
    /// The parameter and the body of each function of one parameter, in
    /// order.
    pub single_var_functions: Seq<(Seq<char>, ExprView)>,
}

/// The bindings of the first `count` builtin functions, each under its
/// name.
pub open spec fn builtin_bindings(count: nat) -> Bindings
    decreases count,
{
    if count == 0 || count > BuiltinFunction::every().len() {
        Map::empty()
    } else {
        builtin_bindings((count - 1) as nat).insert(
            BuiltinFunction::every()[count - 1].name(),
            BindingView::Builtin(BuiltinFunction::every()[count - 1]),
        )
    }
}

/// What a new interpreter holds: the builtin functions, and nothing else.
pub open spec fn initial_view() -> InterpreterView {
    InterpreterView {
        bindings: builtin_bindings(BuiltinFunction::every().len()),
        call_limit: BuiltinFunction::every().len(),
        constants: Seq::empty(),
        single_var_functions: Seq::empty(),
    }
}

/// The first of `names`, from the index `from` on, that `env` binds.
pub open spec fn first_bound(env: Bindings, names: Seq<Seq<char>>, from: nat) -> Option<Seq<char>>
    decreases names.len() - from,
{
    if from >= names.len() {
        None
    } else if env.contains_key(names[from as int]) {
        Some(names[from as int])
    } else {
        first_bound(env, names, from + 1)
    }
}

/// What an interpreter holds after `item` is added, or why it cannot be.
///
/// An expression is evaluated and its value recorded. An assignment needs a
/// name that is not bound; its body is evaluated, and the value recorded and
/// bound. A function needs a name that is not bound and parameters of which
/// none is bound; it is bound without its body being evaluated.
pub open spec fn add_item_spec(state: InterpreterView, item: ItemView) -> Result<
    InterpreterView,
    EvalErrorView,
> {
    match item {
        ItemView::Expression(body) => match eval_spec(
            state.bindings,
            Map::empty(),
            body,
            state.call_limit,
        ) {
            Err(e) => Err(e),
            Ok(number) => Ok(
                InterpreterView { constants: state.constants.push((None, number)), ..state },
            ),
        },
        ItemView::Assignment { name, body } => {
            if state.bindings.contains_key(name) {
                Err(EvalErrorView::VariableAlreadyBound(name))
            } else {
                match eval_spec(state.bindings, Map::empty(), body, state.call_limit) {
                    Err(e) => Err(e),
                    Ok(number) => Ok(
                        InterpreterView {
                            bindings: state.bindings.insert(name, BindingView::Value(number)),
                            call_limit: state.call_limit + 1,
                            constants: state.constants.push((Some(name), number)),
                            ..state
                        },
                    ),
                }
            }
        },
        ItemView::FunctionDef { name, args, body } => {
            if state.bindings.contains_key(name) {
                Err(EvalErrorView::FunctionAlreadyBound(name))
            } else {
                match first_bound(state.bindings, args, 0) {
                    Some(bound) => Err(EvalErrorView::ArgumentAlreadyBound(bound)),
                    None => Ok(
                        InterpreterView {
                            bindings: state.bindings.insert(
                                name,
                                BindingView::Function { args, body },
                            ),
                            call_limit: state.call_limit + 1,
                            single_var_functions: if args.len() == 1 {
                                state.single_var_functions.push((args[0], body))
                            } else {
                                state.single_var_functions
                            },
                            ..state
                        },
                    ),
                }
            }
        },
    }
}

/// What an interpreter holds after the items are added one by one up to
/// the first that cannot be, with the error of that one.
pub open spec fn run_spec(state: InterpreterView, items: Seq<ItemView>) -> (
    InterpreterView,
    Option<EvalErrorView>,
)
    decreases items.len(),
{
    if items.len() == 0 {
        (state, None)
    } else {
        match add_item_spec(state, items[0]) {
            Err(e) => (state, Some(e)),
            Ok(next) => run_spec(next, items.drop_first()),
        }
    }
}

/// The values of recorded constants, in order.
pub open spec fn constants_view(constants: Seq<(Option<Ident>, Rc<Number>)>) -> Seq<
    (Option<Seq<char>>, NumberView),
> {
    Seq::new(
        constants.len(),
        |i: int|
            (
                match constants[i].0 {
                    Some(name) => Some(text_of(name)),
                    None => None,
                },
                constants[i].1@,
            ),
    )
}

/// The values of recorded functions, in order.
pub open spec fn functions_view(functions: Seq<(Ident, Expr)>) -> Seq<(Seq<char>, ExprView)> {
    Seq::new(functions.len(), |i: int| (text_of(functions[i].0), functions[i].1@))
}

/// Whether `r` is the outcome `expected`.
pub open spec fn evaluated_as(r: Result<Rc<Number>, EvalError>, expected: Evaluated) -> bool {
    match r {
        Ok(number) => expected == Ok::<_, EvalErrorView>(number@),
        Err(error) => expected == Err::<NumberView, _>(error@),
    }
}

/// An interpreter: the bindings made so far, and what was recorded while
/// they were made.
#[derive(Debug)]
pub struct Interpreter {
    bindings: NameMap<Binding>,
    /// The value of each expression and assignment, in order, with the name
    /// that an assignment gave it.
    pub constants: Vec<(Option<Ident>, Rc<Number>)>,
    /// The parameter and the body of each function of one parameter, in
    /// order.
    pub single_var_functions: Vec<(Ident, Expr)>,
}

impl View for Interpreter {
    type V = InterpreterView;

    closed spec fn view(&self) -> InterpreterView {
        InterpreterView {
            bindings: self.bindings(),
            call_limit: self.call_limit(),
            constants: constants_view(self.constants@),
            single_var_functions: functions_view(self.single_var_functions@),
        }
    }
}

impl Interpreter {
    /// What each bound name is bound to.
    pub closed spec fn bindings(&self) -> Bindings {
        self.bindings@
    }

    /// How deep calls may nest: as many as bindings were made. An
    /// evaluation that fails at this limit fails at every greater one.
    pub closed spec fn call_limit(&self) -> nat {
        self.bindings.insertions()
    }

    /// What the interpreter holds is its bindings, their number, and what
    /// it has recorded.
    pub proof fn lemma_view(&self)
        ensures
            self@.bindings == self.bindings(),
            self@.call_limit == self.call_limit(),
    {
    }

    /// The value of each expression and assignment, in order.
    pub fn constants(&self) -> (r: &Vec<(Option<Ident>, Rc<Number>)>)
        ensures
            constants_view(r@) == self@.constants,
    {
        &self.constants
    }

    /// The parameter and the body of each function of one parameter, in
    /// order.
    pub fn single_var_functions(&self) -> (r: &Vec<(Ident, Expr)>)
        ensures
            functions_view(r@) == self@.single_var_functions,
    {
        &self.single_var_functions
    }

    /// An interpreter that knows the builtin functions.
    pub fn new() -> (r: Self)
        ensures
            r@ == initial_view(),
    {
        let mut bindings: NameMap<Binding> = NameMap::new();
        let builtins = BuiltinFunction::all();
        let mut i: usize = 0;
        while i < builtins.len()
            invariant
                i <= builtins@.len(),
                builtins@ == BuiltinFunction::every(),
                bindings@ == builtin_bindings(i as nat),
                bindings.insertions() == i,
            decreases builtins@.len() - i,
        {
            let builtin = builtins[i];
            bindings.insert(from_slice(builtin.as_str()), Binding::Builtin(builtin));
            i += 1;
        }
        let r = Interpreter { bindings, constants: Vec::new(), single_var_functions: Vec::new() };
        proof {
            assert(constants_view(r.constants@) =~= Seq::empty());
            assert(functions_view(r.single_var_functions@) =~= Seq::empty());
        }
        r
    }

    /// Adds the items one by one, up to the first that cannot be added.
    pub fn run(&mut self, items: Vec<TopLevelItem>) -> (r: Result<(), EvalError>)
        ensures
            final(self)@ == run_spec(old(self)@, items_view(items@)).0,
            match r {
                Ok(()) => run_spec(old(self)@, items_view(items@)).1 is None,
                Err(error) => run_spec(old(self)@, items_view(items@)).1 == Some(error@),
            },
    {
        let ghost all = items_view(items@);
        proof {
            assert(all.skip(0) =~= all);
        }
        for item in it: items
            invariant
                it.seq() == items@,
                all == items_view(items@),
                run_spec(old(self)@, all) == run_spec(self@, all.skip(it.index() as int)),
        {
            proof {
                assert(all.skip(it.index() as int).drop_first() =~= all.skip(it.index() + 1));
            }
            match self.add_item(item) {
                Ok(()) => {},
                Err(error) => {
                    return Err(error);
                },
            }
        }
        Ok(())
    }

    /// Adds `item`: records the value of an expression, or binds the name
    /// of an assignment or of a function. An item that cannot be added
    /// leaves the interpreter as it was.
    #[verifier::loop_isolation(false)]
    pub fn add_item(&mut self, item: TopLevelItem) -> (r: Result<(), EvalError>)
        ensures
            match r {
                Ok(()) => add_item_spec(old(self)@, item@) == Ok::<_, EvalErrorView>(final(self)@),
                Err(error) => add_item_spec(old(self)@, item@) == Err::<InterpreterView, _>(
                    error@,
                ) && final(self)@ == old(self)@,
            },
    {
        let ghost constants = constants_view(self.constants@);
        let ghost functions = functions_view(self.single_var_functions@);
        match item {
            TopLevelItem::Expression(expr) => {
                let value = match self.evaluate(&expr, &NameMap::new()) {
                    Ok(value) => value,
                    Err(error) => return Err(error),
                };
                self.constants.push((None, value));
                proof {
                    assert(constants_view(self.constants@) =~= constants.push((None, value@)));
                }
            },
            TopLevelItem::Assignment { name, body } => {
                if self.bindings.contains_key(&name) {
                    return Err(EvalError::VariableAlreadyBound(name));
                }
                let value = match self.evaluate(&body, &NameMap::new()) {
                    Ok(value) => value,
                    Err(error) => return Err(error),
                };
                self.constants.push((Some(name.clone()), share(&value)));
                proof {
                    assert(constants_view(self.constants@) =~= constants.push(
                        (Some(text_of(name)), value@),
                    ));
                }
                self.bindings.insert(name, Binding::Value(value));
            },
            TopLevelItem::FunctionDef { name, args, body } => {
                if self.bindings.contains_key(&name) {
                    return Err(EvalError::FunctionAlreadyBound(name));
                }
                let n = args.len();
                let mut i: usize = 0;
                while i < n
                    invariant
                        i <= n,
                        n == args@.len(),
                        *self == *old(self),
                        first_bound(self.bindings(), names_view(args@), 0) == first_bound(
                            self.bindings(),
                            names_view(args@),
                            i as nat,
                        ),
                    decreases n - i,
                {
                    if self.bindings.contains_key(args.get(i)) {
                        return Err(EvalError::ArgumentAlreadyBound(args.get(i).clone()));
                    }
                    i += 1;
                }
                if n == 1 {
                    self.single_var_functions.push((args.get(0).clone(), body.clone()));
                    proof {
                        assert(functions_view(self.single_var_functions@) =~= functions.push(
                            (text_of(args@[0]), body@),
                        ));
                    }
                }
                self.bindings.insert(name, Binding::Function { args, body });
            },
        }
        Ok(())
    }

    /// Evaluates `expr` with the arguments `arg_map`. Calls may nest as
    /// deep as there are bindings.
    pub fn evaluate(&self, expr: &Expr, arg_map: &NameMap<Rc<Number>>) -> (r: Result<
        Rc<Number>,
        EvalError,
    >)
        ensures
            evaluated_as(r, eval_spec(self.bindings(), arg_map@, expr@, self.call_limit())),
    {
        self.evaluate_within(expr, arg_map, self.bindings.len())
    }

    /// Evaluates `expr` with the arguments `scope` and calls nested at most
    /// `depth` deep.
    #[verifier::loop_isolation(false)]
    fn evaluate_within(&self, expr: &Expr, scope: &NameMap<Rc<Number>>, depth: usize) -> (r:
        Result<Rc<Number>, EvalError>)
        ensures
            evaluated_as(r, eval_spec(self.bindings(), scope@, expr@, depth as nat)),
        decreases depth, expr,
    {
        match expr {
            Expr::Lit(text) => Ok(Rc::new(Number::Lit(text.clone()))),
            Expr::Variable(name) => match scope.get(name) {
                Some(number) => Ok(share(number)),
                None => match self.bindings.get(name) {
                    Some(Binding::Value(number)) => Ok(share(number)),
                    Some(_) => Err(EvalError::NotAVariable(name.clone())),
                    None => Err(EvalError::UndefinedBinding(name.clone())),
                },
            },
            Expr::Call { func, args } => {
                proof {
                    expr.lemma_call_view();
                }
                let ghost views = exprs_view(args@);
                match self.bindings.get(func) {
                    None => Err(EvalError::UndefinedFunction(func.clone())),
                    Some(Binding::Value(_)) => Err(EvalError::NotAFunction(func.clone())),
                    Some(Binding::Builtin(builtin)) => {
                        if args.len() != 1 {
                            return Err(
                                EvalError::WrongArgumentCount { given: args.len(), expected: 1 },
                            );
                        }
                        proof {
                            args.lemma_element_decreases(0);
                        }
                        let number = match self.evaluate_within(args.get(0), scope, depth) {
                            Ok(number) => number,
                            Err(error) => return Err(error),
                        };
                        Ok(Rc::new(Number::Applied { func: *builtin, arg: number }))
                    },
                    Some(Binding::Function { args: params, body }) => {
                        let n = args.len();
                        if n != params.len() {
                            return Err(
                                EvalError::WrongArgumentCount {
                                    given: n,
                                    expected: params.len(),
                                },
                            );
                        }
                        let ghost names = names_view(params@);
                        let mut inner: NameMap<Rc<Number>> = NameMap::new();
                        let mut i: usize = 0;
                        let ghost mut values: Seq<NumberView> = Seq::empty();
                        while i < n
                            invariant
                                i <= n,
                                n == args@.len(),
                                n == params@.len(),
                                values.len() == i,
                                eval_args_spec(
                                    self.bindings(),
                                    scope@,
                                    views,
                                    i as nat,
                                    depth as nat,
                                ) == Ok::<_, EvalErrorView>(values),
                                inner@ == bind_params(names, values, i as nat),
                            decreases n - i,
                        {
                            proof {
                                args.lemma_element_decreases(i as int);
                            }
                            let number = match self.evaluate_within(args.get(i), scope, depth) {
                                Ok(number) => number,
                                Err(error) => {
                                    proof {
                                        lemma_eval_args_error_stays(
                                            self.bindings(),
                                            scope@,
                                            views,
                                            (i + 1) as nat,
                                            n as nat,
                                            depth as nat,
                                        );
                                    }
                                    return Err(error);
                                },
                            };
                            proof {
                                lemma_bind_params_agree(
                                    names,
                                    values,
                                    values.push(number@),
                                    i as nat,
                                );
                                values = values.push(number@);
                            }
                            inner.insert(params.get(i).clone(), number);
                            i += 1;
                        }
                        if depth == 0 {
                            return Err(EvalError::EndlessRecursion(func.clone()));
                        }
                        self.evaluate_within(body, &inner, depth - 1)
                    },
                }
            },
            Expr::UnOp { op, arg } => {
                let number = match self.evaluate_within(arg, scope, depth) {
                    Ok(number) => number,
                    Err(error) => return Err(error),
                };
                match op {
                    UnaryOp::Negate => Ok(Rc::new(Number::Negated(number))),
                    UnaryOp::Plus => Ok(number),
                }
            },
            Expr::BinOp { op, left, right } => {
                let left = match self.evaluate_within(left, scope, depth) {
                    Ok(number) => number,
                    Err(error) => return Err(error),
                };
                let right = match self.evaluate_within(right, scope, depth) {
                    Ok(number) => number,
                    Err(error) => return Err(error),
                };
                Ok(Rc::new(Number::Combined { op: *op, left, right }))
            },
        }
    }
}

} // verus!
