//! What holds of every interpreter: bindings stay, a bound name cannot be
//! bound again, a call needs as many arguments as its function has
//! parameters, the limit on nested calls changes no other result, and the
//! numbers of a program that was parsed hold numeric literals only.

use crate::ast::{ExprView, ItemView};
use crate::builtins::BuiltinFunction;
use crate::parse::parse_spec;
use crate::run::{
    add_item_spec, bind_params, builtin_bindings, eval_args_spec, eval_spec, initial_view,
    run_spec, BindingView, Bindings, EvalErrorView, InterpreterView, NumberView, Scope,
};
use crate::valid::{
    is_number, lemma_parsed_is_valid, valid_expr, valid_item, valid_items,
};
use vstd::prelude::*;

verus! {

/// Whether `later` binds every name that `earlier` binds, to the same.
pub open spec fn keeps(later: Bindings, earlier: Bindings) -> bool {
    forall|name: Seq<char>| #[trigger]
        earlier.contains_key(name) ==> later.contains_key(name) && later[name] == earlier[name]
}

/// Adding an item takes no binding away and changes none: what was bound
/// stays bound to the same, and the limit on nested calls does not shrink.
pub proof fn lemma_add_item_keeps_bindings(state: InterpreterView, item: ItemView)
    ensures
        add_item_spec(state, item) matches Ok(next) ==> keeps(next.bindings, state.bindings)
            && next.call_limit >= state.call_limit,
{
}

/// Running items takes no binding away and changes none.
pub proof fn lemma_run_keeps_bindings(state: InterpreterView, items: Seq<ItemView>)
    ensures
        keeps(run_spec(state, items).0.bindings, state.bindings),
        run_spec(state, items).0.call_limit >= state.call_limit,
    decreases items.len(),
{
    if items.len() > 0 {
        lemma_add_item_keeps_bindings(state, items[0]);
        if let Ok(next) = add_item_spec(state, items[0]) {
            lemma_run_keeps_bindings(next, items.drop_first());
        }
    }
}

/// An assignment or a function that was added has bound its name.
pub proof fn lemma_added_name_is_bound(state: InterpreterView, item: ItemView)
    ensures
        add_item_spec(state, item) matches Ok(next) ==> match item {
            ItemView::Expression(_) => true,
            ItemView::Assignment { name, body } => next.bindings.contains_key(name)
                && next.bindings[name] is Value,
            ItemView::FunctionDef { name, args, body } => next.bindings.contains_key(name)
                && next.bindings[name] == (BindingView::Function { args, body }),
        },
{
}

/// A name that is bound cannot be bound again: an assignment to it and a
/// function under it are refused, whatever their bodies.
pub proof fn lemma_bound_name_is_refused(state: InterpreterView, item: ItemView)
    ensures
        match item {
            ItemView::Expression(_) => true,
            ItemView::Assignment { name, body } => state.bindings.contains_key(name)
                ==> add_item_spec(state, item) == Err::<InterpreterView, _>(
                EvalErrorView::VariableAlreadyBound(name),
            ),
            ItemView::FunctionDef { name, args, body } => state.bindings.contains_key(name)
                ==> add_item_spec(state, item) == Err::<InterpreterView, _>(
                EvalErrorView::FunctionAlreadyBound(name),
            ),
        },
{
}

/// The same assignment cannot be added twice: where it was added, adding
/// it again, at once or after other items, is refused.
pub proof fn lemma_second_assignment_is_refused(
    state: InterpreterView,
    name: Seq<char>,
    body: ExprView,
    between: Seq<ItemView>,
    other: ExprView,
)
    ensures
        add_item_spec(state, ItemView::Assignment { name, body }) matches Ok(next) ==> add_item_spec(
            run_spec(next, between).0,
            ItemView::Assignment { name, body: other },
        ) == Err::<InterpreterView, _>(EvalErrorView::VariableAlreadyBound(name)),
{
    if let Ok(next) = add_item_spec(state, ItemView::Assignment { name, body }) {
        lemma_run_keeps_bindings(next, between);
        assert(next.bindings.contains_key(name));
    }
}

/// A function is bound without its body being looked at: whether it can be
/// added depends on its name and its parameters alone.
pub proof fn lemma_function_body_is_not_evaluated(
    state: InterpreterView,
    name: Seq<char>,
    args: Seq<Seq<char>>,
    body: ExprView,
    other: ExprView,
)
    ensures
        add_item_spec(state, ItemView::FunctionDef { name, args, body }) is Ok <==> add_item_spec(
            state,
            ItemView::FunctionDef { name, args, body: other },
        ) is Ok,
{
}

/// A call with another number of arguments than its function has
/// parameters fails, whatever the arguments are. A builtin function has one
/// parameter.
pub proof fn lemma_wrong_argument_count(
    env: Bindings,
    scope: Scope,
    func: Seq<char>,
    args: Seq<ExprView>,
    depth: nat,
)
    requires
        env.contains_key(func),
    ensures
        env[func] matches BindingView::Function { args: params, .. } ==> args.len() != params.len()
            ==> eval_spec(env, scope, ExprView::Call { func, args }, depth) == Err::<NumberView, _>(
            EvalErrorView::WrongArgumentCount { given: args.len(), expected: params.len() },
        ),
        env[func] is Builtin ==> args.len() != 1 ==> eval_spec(
            env,
            scope,
            ExprView::Call { func, args },
            depth,
        ) == Err::<NumberView, _>(
            EvalErrorView::WrongArgumentCount { given: args.len(), expected: 1 },
        ),
{
}

/// Whether an outcome is the failure at the limit on nested calls.
pub open spec fn hit_limit<T>(outcome: Result<T, EvalErrorView>) -> bool {
    outcome matches Err(EvalErrorView::EndlessRecursion(_))
}

/// The limit on nested calls changes no other result: an evaluation that
/// does not fail at the limit yields the same under every higher limit.
pub proof fn lemma_deeper_limit_same_result(
    env: Bindings,
    scope: Scope,
    expr: ExprView,
    depth: nat,
    deeper: nat,
)
    requires
        depth <= deeper,
        !hit_limit(eval_spec(env, scope, expr, depth)),
    ensures
        eval_spec(env, scope, expr, deeper) == eval_spec(env, scope, expr, depth),
    decreases depth, expr, 0nat,
{
    match expr {
        ExprView::Call { func, args } => {
            if env.contains_key(func) {
                match env[func] {
                    BindingView::Builtin(builtin) => {
                        if args.len() == 1 {
                            lemma_deeper_limit_same_result(env, scope, args[0], depth, deeper);
                        }
                    },
                    BindingView::Function { args: params, body } => {
                        if args.len() == params.len() {
                            lemma_deeper_limit_same_args(
                                env,
                                scope,
                                args,
                                args.len(),
                                depth,
                                deeper,
                            );
                            if let Ok(values) = eval_args_spec(
                                env,
                                scope,
                                args,
                                args.len(),
                                depth,
                            ) {
                                lemma_deeper_limit_same_result(
                                    env,
                                    bind_params(params, values, params.len()),
                                    body,
                                    (depth - 1) as nat,
                                    (deeper - 1) as nat,
                                );
                            }
                        }
                    },
                    _ => {},
                }
            }
        },
        ExprView::UnOp { op, arg } => {
            lemma_deeper_limit_same_result(env, scope, *arg, depth, deeper);
        },
        ExprView::BinOp { op, left, right } => {
            lemma_deeper_limit_same_result(env, scope, *left, depth, deeper);
            if eval_spec(env, scope, *left, depth) is Ok {
                lemma_deeper_limit_same_result(env, scope, *right, depth, deeper);
            }
        },
        _ => {},
    }
}

/// Arguments of which none fails at the limit on nested calls evaluate to
/// the same under every higher limit.
pub proof fn lemma_deeper_limit_same_args(
    env: Bindings,
    scope: Scope,
    args: Seq<ExprView>,
    count: nat,
    depth: nat,
    deeper: nat,
)
    requires
        depth <= deeper,
        !hit_limit(eval_args_spec(env, scope, args, count, depth)),
    ensures
        eval_args_spec(env, scope, args, count, deeper) == eval_args_spec(
            env,
            scope,
            args,
            count,
            depth,
        ),
    decreases depth, args, count,
{
    if 1 <= count <= args.len() {
        lemma_deeper_limit_same_args(env, scope, args, (count - 1) as nat, depth, deeper);
        if eval_args_spec(env, scope, args, (count - 1) as nat, depth) is Ok {
            lemma_deeper_limit_same_result(env, scope, args[count - 1], depth, deeper);
        }
    }
}

/// Every builtin function has its own name.
pub proof fn lemma_builtin_names_differ(one: BuiltinFunction, other: BuiltinFunction)
    ensures
        one.name() == other.name() ==> one == other,
{
    reveal_strlit("sqrt");
    reveal_strlit("abs");
    reveal_strlit("sin");
    reveal_strlit("cos");
    reveal_strlit("tan");
    reveal_strlit("atan");
    let differ = |a: Seq<char>, b: Seq<char>| a.len() != b.len() || a[0] != b[0] || a[1] != b[1];
    assert(differ("sqrt"@, "abs"@));
    assert(differ("sqrt"@, "sin"@));
    assert(differ("sqrt"@, "cos"@));
    assert(differ("sqrt"@, "tan"@));
    assert(differ("abs"@, "sin"@));
    assert(differ("abs"@, "cos"@));
    assert(differ("abs"@, "tan"@));
    assert(differ("abs"@, "atan"@));
    assert(differ("sin"@, "cos"@));
    assert(differ("sin"@, "tan"@));
    assert(differ("sin"@, "atan"@));
    assert(differ("cos"@, "tan"@));
    assert(differ("cos"@, "atan"@));
    assert(differ("tan"@, "atan"@));
    assert(differ("sqrt"@, "atan"@));
}

/// A new interpreter binds every builtin function under its name.
pub proof fn lemma_builtins_are_bound(builtin: BuiltinFunction)
    ensures
        initial_view().bindings.contains_key(builtin.name()),
        initial_view().bindings[builtin.name()] == BindingView::Builtin(builtin),
{
    let every = BuiltinFunction::every();
    reveal_with_fuel(builtin_bindings, 7);
    lemma_builtin_names_differ(builtin, every[0]);
    lemma_builtin_names_differ(builtin, every[1]);
    lemma_builtin_names_differ(builtin, every[2]);
    lemma_builtin_names_differ(builtin, every[3]);
    lemma_builtin_names_differ(builtin, every[4]);
    lemma_builtin_names_differ(builtin, every[5]);
}

/// A new interpreter binds the names of the builtin functions and no
/// other name.
pub proof fn lemma_only_builtins_are_bound(name: Seq<char>)
    ensures
        initial_view().bindings.contains_key(name) <==> exists|builtin: BuiltinFunction|
            #[trigger] builtin.name() == name,
{
    let every = BuiltinFunction::every();
    reveal_with_fuel(builtin_bindings, 7);
    if initial_view().bindings.contains_key(name) {
        let index = choose|index: int| 0 <= index < 6 && every[index].name() == name;
        assert(every[index].name() == name);
    }
    if exists|builtin: BuiltinFunction| #[trigger] builtin.name() == name {
        let builtin = choose|builtin: BuiltinFunction| #[trigger] builtin.name() == name;
        lemma_builtins_are_bound(builtin);
    }
}

/// A number of which every literal is a numeric literal: one whose
/// arithmetic can be carried out.
pub open spec fn valid_number(number: NumberView) -> bool
    decreases number,
{
    match number {
        NumberView::Lit(text) => is_number(text),
        NumberView::Given(_) => true,
        NumberView::Negated(arg) => valid_number(*arg),
        NumberView::Combined { op, left, right } => valid_number(*left) && valid_number(*right),
        NumberView::Applied { func, arg } => valid_number(*arg),
    }
}

/// Bindings of which every value is a valid number, and every function has
/// a valid body.
pub open spec fn valid_bindings(env: Bindings) -> bool {
    forall|name: Seq<char>| #[trigger]
        env.contains_key(name) ==> match env[name] {
            BindingView::Value(number) => valid_number(number),
            BindingView::Function { args, body } => valid_expr(body),
            BindingView::Builtin(_) => true,
        }
}

/// A scope of which every argument is a valid number.
pub open spec fn valid_scope(scope: Scope) -> bool {
    forall|name: Seq<char>| #[trigger] scope.contains_key(name) ==> valid_number(scope[name])
}

/// Numbers that are all valid.
pub open spec fn valid_numbers(numbers: Seq<NumberView>) -> bool {
    forall|i: int| 0 <= i < numbers.len() ==> valid_number(#[trigger] numbers[i])
}

/// The scope of a call with valid arguments is valid.
proof fn lemma_bind_params_valid(params: Seq<Seq<char>>, values: Seq<NumberView>, count: nat)
    requires
        valid_numbers(values),
        count <= values.len(),
    ensures
        valid_scope(bind_params(params, values, count)),
    decreases count,
{
    if count > 0 {
        lemma_bind_params_valid(params, values, (count - 1) as nat);
        assert(valid_number(values[count - 1]));
    }
}

/// A valid expression, where the bindings and the arguments are valid,
/// evaluates to a valid number.
pub proof fn lemma_eval_valid(env: Bindings, scope: Scope, expr: ExprView, depth: nat)
    requires
        valid_bindings(env),
        valid_scope(scope),
        valid_expr(expr),
    ensures
        eval_spec(env, scope, expr, depth) matches Ok(number) ==> valid_number(number),
    decreases depth, expr, 0nat,
{
    match expr {
        ExprView::Call { func, args } => {
            if env.contains_key(func) {
                match env[func] {
                    BindingView::Builtin(builtin) => {
                        if args.len() == 1 {
                            lemma_eval_valid(env, scope, args[0], depth);
                        }
                    },
                    BindingView::Function { args: params, body } => {
                        if args.len() == params.len() {
                            lemma_eval_args_valid(env, scope, args, args.len(), depth);
                            if let Ok(values) = eval_args_spec(
                                env,
                                scope,
                                args,
                                args.len(),
                                depth,
                            ) {
                                if depth > 0 {
                                    lemma_bind_params_valid(params, values, params.len());
                                    lemma_eval_valid(
                                        env,
                                        bind_params(params, values, params.len()),
                                        body,
                                        (depth - 1) as nat,
                                    );
                                }
                            }
                        }
                    },
                    _ => {},
                }
            }
        },
        ExprView::UnOp { op, arg } => {
            lemma_eval_valid(env, scope, *arg, depth);
        },
        ExprView::BinOp { op, left, right } => {
            lemma_eval_valid(env, scope, *left, depth);
            lemma_eval_valid(env, scope, *right, depth);
        },
        _ => {},
    }
}

/// Valid arguments, where the bindings and the scope are valid, evaluate to
/// valid numbers, one for each.
pub proof fn lemma_eval_args_valid(
    env: Bindings,
    scope: Scope,
    args: Seq<ExprView>,
    count: nat,
    depth: nat,
)
    requires
        valid_bindings(env),
        valid_scope(scope),
        count <= args.len(),
        forall|i: int| 0 <= i < args.len() ==> valid_expr(#[trigger] args[i]),
    ensures
        eval_args_spec(env, scope, args, count, depth) matches Ok(values) ==> values.len()
            == count && valid_numbers(values),
    decreases depth, args, count,
{
    if count > 0 {
        lemma_eval_args_valid(env, scope, args, (count - 1) as nat, depth);
        lemma_eval_valid(env, scope, args[count - 1], depth);
        if let Ok(values) = eval_args_spec(env, scope, args, count, depth) {
            let earlier = eval_args_spec(env, scope, args, (count - 1) as nat, depth)->Ok_0;
            assert forall|i: int| 0 <= i < values.len() implies valid_number(
                #[trigger] values[i],
            ) by {
                if i < earlier.len() {
                    assert(values[i] == earlier[i]);
                }
            }
        }
    }
}

/// An interpreter of which the bindings and the recorded values are valid.
pub open spec fn valid_state(state: InterpreterView) -> bool {
    &&& valid_bindings(state.bindings)
    &&& forall|i: int|
        0 <= i < state.constants.len() ==> valid_number((#[trigger] state.constants[i]).1)
}

/// A new interpreter is valid.
pub proof fn lemma_initial_state_valid()
    ensures
        valid_state(initial_view()),
{
    assert forall|name: Seq<char>| #[trigger]
        initial_view().bindings.contains_key(name) implies initial_view().bindings[name]
        is Builtin by {
        reveal_with_fuel(builtin_bindings, 7);
    }
}

/// Adding a valid item to a valid interpreter leaves it valid.
pub proof fn lemma_add_item_keeps_valid(state: InterpreterView, item: ItemView)
    requires
        valid_state(state),
        valid_item(item),
    ensures
        add_item_spec(state, item) matches Ok(next) ==> valid_state(next),
{
    if let Ok(next) = add_item_spec(state, item) {
        assert(valid_scope(Map::empty()));
        match item {
            ItemView::Expression(body) => {
                lemma_eval_valid(state.bindings, Map::empty(), body, state.call_limit);
            },
            ItemView::Assignment { name, body } => {
                lemma_eval_valid(state.bindings, Map::empty(), body, state.call_limit);
            },
            _ => {},
        }
        assert forall|i: int| 0 <= i < next.constants.len() implies valid_number(
            (#[trigger] next.constants[i]).1,
        ) by {
            if i < state.constants.len() {
                assert(next.constants[i] == state.constants[i]);
            }
        }
    }
}

/// Running valid items on a valid interpreter leaves it valid.
pub proof fn lemma_run_keeps_valid(state: InterpreterView, items: Seq<ItemView>)
    requires
        valid_state(state),
        valid_items(items),
    ensures
        valid_state(run_spec(state, items).0),
    decreases items.len(),
{
    if items.len() > 0 {
        assert(valid_item(items[0]));
        lemma_add_item_keeps_valid(state, items[0]);
        if let Ok(next) = add_item_spec(state, items[0]) {
            assert forall|i: int| 0 <= i < items.drop_first().len() implies valid_item(
                #[trigger] items.drop_first()[i],
            ) by {
                assert(items.drop_first()[i] == items[i + 1]);
            }
            lemma_run_keeps_valid(next, items.drop_first());
        }
    }
}

/// The arithmetic of what a program records can be carried out: where a
/// text is parsed and its items are run on a new interpreter, every literal
/// of every recorded number is a numeric literal.
pub proof fn lemma_program_records_valid_numbers(text: Seq<char>)
    ensures
        parse_spec(text) matches Ok(items) ==> valid_state(run_spec(initial_view(), items).0),
{
    if let Ok(items) = parse_spec(text) {
        lemma_parsed_is_valid(text);
        lemma_initial_state_valid();
        lemma_run_keeps_valid(initial_view(), items);
    }
}

} // verus!
