//! Why calls may nest as deep as there are bindings, and no deeper: an
//! evaluation that fails at this limit fails at every greater limit too. So
//! the limit stops only what would never end.

use crate::ast::{ExprView, ItemView};
use crate::laws::{hit_limit, lemma_deeper_limit_same_args, lemma_deeper_limit_same_result};
use crate::run::{
    add_item_spec, bind_params, builtin_bindings, eval_args_spec, eval_spec, initial_view,
    run_spec, BindingView, Bindings, EvalErrorView, InterpreterView, NumberView, Scope,
};
use vstd::prelude::*;

verus! {

/// Whether two outcomes are both a success, or the same error.
pub open spec fn alike<T>(one: Result<T, EvalErrorView>, other: Result<T, EvalErrorView>) -> bool {
    match one {
        Ok(_) => other is Ok,
        Err(e) => other == Err::<T, _>(e),
    }
}

/// Which names the scope of a call binds depends on the parameters alone.
proof fn lemma_bind_params_names(
    params: Seq<Seq<char>>,
    values: Seq<NumberView>,
    others: Seq<NumberView>,
    count: nat,
)
    ensures
        bind_params(params, values, count).dom() == bind_params(params, others, count).dom(),
    decreases count,
{
    if count > 0 {
        lemma_bind_params_names(params, values, others, (count - 1) as nat);
        assert(bind_params(params, values, count).dom() =~= bind_params(
            params,
            values,
            (count - 1) as nat,
        ).dom().insert(params[count - 1]));
        assert(bind_params(params, others, count).dom() =~= bind_params(
            params,
            others,
            (count - 1) as nat,
        ).dom().insert(params[count - 1]));
    }
}

/// Whether an evaluation succeeds, and how it fails, depends on the names
/// that the scope binds and not on what it binds them to.
pub proof fn lemma_values_decide_nothing(
    env: Bindings,
    scope: Scope,
    other: Scope,
    expr: ExprView,
    depth: nat,
)
    requires
        scope.dom() == other.dom(),
    ensures
        alike(eval_spec(env, scope, expr, depth), eval_spec(env, other, expr, depth)),
    decreases depth, expr, 0nat,
{
    match expr {
        ExprView::Variable(name) => {
            assert(scope.contains_key(name) == other.contains_key(name));
        },
        ExprView::Call { func, args } => {
            if env.contains_key(func) {
                match env[func] {
                    BindingView::Builtin(builtin) => {
                        if args.len() == 1 {
                            lemma_values_decide_nothing(env, scope, other, args[0], depth);
                        }
                    },
                    BindingView::Function { args: params, body } => {
                        if args.len() == params.len() {
                            lemma_values_decide_no_args(env, scope, other, args, args.len(), depth);
                            if let Ok(values) = eval_args_spec(env, scope, args, args.len(), depth) {
                                let others = eval_args_spec(
                                    env,
                                    other,
                                    args,
                                    args.len(),
                                    depth,
                                )->Ok_0;
                                if depth > 0 {
                                    lemma_bind_params_names(params, values, others, params.len());
                                    lemma_values_decide_nothing(
                                        env,
                                        bind_params(params, values, params.len()),
                                        bind_params(params, others, params.len()),
                                        body,
                                        (depth - 1) as nat,
                                    );
                                }
                            }
                        }
                    },
                    _ => {},
                }
            }
        },
        ExprView::UnOp { op, arg } => {
            lemma_values_decide_nothing(env, scope, other, *arg, depth);
        },
        ExprView::BinOp { op, left, right } => {
            lemma_values_decide_nothing(env, scope, other, *left, depth);
            lemma_values_decide_nothing(env, scope, other, *right, depth);
        },
        _ => {},
    }
}

/// Whether the evaluation of arguments succeeds, and how it fails, depends
/// on the names that the scope binds and not on what it binds them to.
pub proof fn lemma_values_decide_no_args(
    env: Bindings,
    scope: Scope,
    other: Scope,
    args: Seq<ExprView>,
    count: nat,
    depth: nat,
)
    requires
        scope.dom() == other.dom(),
    ensures
        alike(
            eval_args_spec(env, scope, args, count, depth),
            eval_args_spec(env, other, args, count, depth),
        ),
    decreases depth, args, count,
{
    if 1 <= count <= args.len() {
        lemma_values_decide_no_args(env, scope, other, args, (count - 1) as nat, depth);
        lemma_values_decide_nothing(env, scope, other, args[count - 1], depth);
    }
}

/// A scope that binds the parameters: each of them to zero.
pub open spec fn some_scope(params: Seq<Seq<char>>) -> Scope {
    bind_params(params, Seq::new(params.len(), |i: int| NumberView::Given(0)), params.len())
}

/// Whether a call of the function `func` with calls nested at most `depth`
/// deep, once its arguments are evaluated, fails at the limit.
pub open spec fn stuck(env: Bindings, func: Seq<char>, depth: nat) -> bool {
    &&& env.contains_key(func)
    &&& env[func] matches BindingView::Function { args: params, body }
    &&& depth > 0 ==> hit_limit(eval_spec(env, some_scope(params), body, (depth - 1) as nat))
}

/// The functions whose calls fail at the limit `depth`.
pub open spec fn stuck_set(env: Bindings, depth: nat) -> Set<Seq<char>> {
    Set::new(|func: Seq<char>| stuck(env, func, depth))
}

/// A call that fails at a limit fails at every smaller limit.
proof fn lemma_stuck_sets_shrink(env: Bindings, depth: nat)
    ensures
        stuck_set(env, depth + 1).subset_of(stuck_set(env, depth)),
        stuck_set(env, depth).subset_of(env.dom()),
{
    let next = depth + 1;
    assert forall|func: Seq<char>| #[trigger] stuck(env, func, next) implies stuck(
        env,
        func,
        depth,
    ) by {
        if depth > 0 {
            let params = env[func]->Function_args;
            let body = env[func]->body;
            if !hit_limit(eval_spec(env, some_scope(params), body, (depth - 1) as nat)) {
                lemma_deeper_limit_same_result(
                    env,
                    some_scope(params),
                    body,
                    (depth - 1) as nat,
                    depth,
                );
            }
        }
    }
}

/// Whether the calls of the same functions fail at the limit `depth` and at
/// the next.
pub open spec fn settled(env: Bindings, depth: nat) -> bool {
    stuck_set(env, depth) == stuck_set(env, depth + 1)
}

/// Where the calls of the same functions fail at a limit and at the next,
/// an evaluation that fails at the one fails at the other.
proof fn lemma_settled_keeps_failing(env: Bindings, scope: Scope, expr: ExprView, depth: nat)
    requires
        settled(env, depth),
        hit_limit(eval_spec(env, scope, expr, depth)),
    ensures
        hit_limit(eval_spec(env, scope, expr, depth + 1)),
    decreases expr, 0nat,
{
    match expr {
        ExprView::Call { func, args } => {
            match env[func] {
                BindingView::Builtin(builtin) => {
                    lemma_settled_keeps_failing(env, scope, args[0], depth);
                },
                BindingView::Function { args: params, body } => {
                    let found = eval_args_spec(env, scope, args, args.len(), depth);
                    if hit_limit(found) {
                        lemma_settled_keeps_failing_args(env, scope, args, args.len(), depth);
                    } else {
                        lemma_deeper_limit_same_args(
                            env,
                            scope,
                            args,
                            args.len(),
                            depth,
                            depth + 1,
                        );
                        let values = found->Ok_0;
                        let inner = bind_params(params, values, params.len());
                        lemma_bind_params_names(
                            params,
                            values,
                            Seq::new(params.len(), |i: int| NumberView::Given(0)),
                            params.len(),
                        );
                        // the call fails at this limit, so at the next
                        if depth > 0 {
                            lemma_values_decide_nothing(
                                env,
                                inner,
                                some_scope(params),
                                body,
                                (depth - 1) as nat,
                            );
                        }
                        assert(stuck(env, func, depth));
                        assert(stuck_set(env, depth).contains(func));
                        assert(stuck_set(env, depth + 1).contains(func));
                        assert(stuck(env, func, depth + 1));
                        lemma_values_decide_nothing(env, some_scope(params), inner, body, depth);
                    }
                },
                _ => {},
            }
        },
        ExprView::UnOp { op, arg } => {
            lemma_settled_keeps_failing(env, scope, *arg, depth);
        },
        ExprView::BinOp { op, left, right } => {
            if hit_limit(eval_spec(env, scope, *left, depth)) {
                lemma_settled_keeps_failing(env, scope, *left, depth);
            } else {
                lemma_deeper_limit_same_result(env, scope, *left, depth, depth + 1);
                lemma_settled_keeps_failing(env, scope, *right, depth);
            }
        },
        _ => {},
    }
}

/// Where the calls of the same functions fail at a limit and at the next,
/// arguments of which one fails at the one have one that fails at the
/// other.
proof fn lemma_settled_keeps_failing_args(
    env: Bindings,
    scope: Scope,
    args: Seq<ExprView>,
    count: nat,
    depth: nat,
)
    requires
        settled(env, depth),
        hit_limit(eval_args_spec(env, scope, args, count, depth)),
    ensures
        hit_limit(eval_args_spec(env, scope, args, count, depth + 1)),
    decreases args, count,
{
    let earlier = eval_args_spec(env, scope, args, (count - 1) as nat, depth);
    if hit_limit(earlier) {
        lemma_settled_keeps_failing_args(env, scope, args, (count - 1) as nat, depth);
    } else {
        lemma_deeper_limit_same_args(env, scope, args, (count - 1) as nat, depth, depth + 1);
        lemma_settled_keeps_failing(env, scope, args[count - 1], depth);
    }
}

/// Where the calls of the same functions fail at a limit and at the next,
/// they fail at the one after it too.
proof fn lemma_settled_stays(env: Bindings, depth: nat)
    requires
        settled(env, depth),
    ensures
        settled(env, depth + 1),
{
    let next = depth + 1;
    let after = depth + 2;
    lemma_stuck_sets_shrink(env, next);
    assert forall|func: Seq<char>| #[trigger] stuck(env, func, next) implies stuck(
        env,
        func,
        after,
    ) by {
        let params = env[func]->Function_args;
        let body = env[func]->body;
        lemma_settled_keeps_failing(env, some_scope(params), body, depth);
    }
    assert(stuck_set(env, next) =~= stuck_set(env, after));
}

/// Once settled, always settled.
proof fn lemma_settled_from(env: Bindings, depth: nat, later: nat)
    requires
        settled(env, depth),
        depth <= later,
    ensures
        settled(env, later),
    decreases later - depth,
{
    if depth < later {
        lemma_settled_stays(env, depth);
        lemma_settled_from(env, depth + 1, later);
    }
}

/// As long as the functions whose calls fail grow fewer from limit to
/// limit, there are as many limits less of them than of bindings.
proof fn lemma_settles(env: Bindings, depth: nat)
    requires
        env.dom().finite(),
    ensures
        stuck_set(env, depth).finite(),
        (exists|earlier: nat| earlier < depth && settled(env, earlier)) || stuck_set(
            env,
            depth,
        ).len() + depth <= env.dom().len(),
    decreases depth,
{
    lemma_stuck_sets_shrink(env, depth);
    vstd::set_lib::lemma_len_subset(stuck_set(env, depth), env.dom());
    if depth > 0 {
        let before = (depth - 1) as nat;
        lemma_settles(env, before);
        lemma_stuck_sets_shrink(env, before);
        if exists|earlier: nat| earlier < before && settled(env, earlier) {
            let earlier = choose|earlier: nat| earlier < before && settled(env, earlier);
            assert(earlier < depth && settled(env, earlier));
        } else if settled(env, before) {
            assert(before < depth && settled(env, before));
        } else {
            let smaller = stuck_set(env, depth);
            let larger = stuck_set(env, before);
            assert(!(smaller =~= larger));
            let missing = choose|func: Seq<char>| larger.contains(func) && !smaller.contains(func);
            assert(smaller.subset_of(larger.remove(missing)));
            vstd::set_lib::lemma_len_subset(smaller, larger.remove(missing));
        }
    }
}

/// Calls need not nest deeper than there are bindings: an evaluation that
/// fails at a limit that is no less than the number of bindings fails at
/// every greater limit.
pub proof fn lemma_limit_is_enough(
    env: Bindings,
    scope: Scope,
    expr: ExprView,
    limit: nat,
    greater: nat,
)
    requires
        env.dom().finite(),
        env.dom().len() <= limit <= greater,
        hit_limit(eval_spec(env, scope, expr, limit)),
    ensures
        hit_limit(eval_spec(env, scope, expr, greater)),
    decreases greater - limit,
{
    if limit < greater {
        lemma_settles(env, limit + 1);
        let earlier = choose|earlier: nat| earlier < limit + 1 && settled(env, earlier);
        lemma_settled_from(env, earlier, limit);
        lemma_settled_keeps_failing(env, scope, expr, limit);
        lemma_limit_is_enough(env, scope, expr, limit + 1, greater);
    }
}

/// Whether an interpreter lets calls nest as deep as it has bindings.
pub open spec fn limit_covers_bindings(state: InterpreterView) -> bool {
    state.bindings.dom().finite() && state.bindings.dom().len() <= state.call_limit
}

/// The builtin functions are no more than were bound.
proof fn lemma_builtin_bindings_count(count: nat)
    ensures
        builtin_bindings(count).dom().finite(),
        builtin_bindings(count).dom().len() <= count,
    decreases count,
{
    if 1 <= count <= crate::builtins::BuiltinFunction::every().len() {
        lemma_builtin_bindings_count((count - 1) as nat);
    }
}

/// A new interpreter lets calls nest as deep as it has bindings.
pub proof fn lemma_initial_limit()
    ensures
        limit_covers_bindings(initial_view()),
{
    lemma_builtin_bindings_count(crate::builtins::BuiltinFunction::every().len());
}

/// Adding an item keeps the limit on nested calls no less than the number
/// of bindings.
pub proof fn lemma_add_item_keeps_limit(state: InterpreterView, item: ItemView)
    requires
        limit_covers_bindings(state),
    ensures
        add_item_spec(state, item) matches Ok(next) ==> limit_covers_bindings(next),
{
}

/// Running items keeps the limit on nested calls no less than the number
/// of bindings.
pub proof fn lemma_run_keeps_limit(state: InterpreterView, items: Seq<ItemView>)
    requires
        limit_covers_bindings(state),
    ensures
        limit_covers_bindings(run_spec(state, items).0),
    decreases items.len(),
{
    if items.len() > 0 {
        lemma_add_item_keeps_limit(state, items[0]);
        if let Ok(next) = add_item_spec(state, items[0]) {
            lemma_run_keeps_limit(next, items.drop_first());
        }
    }
}

/// What an interpreter stops as endless is endless: after any items were
/// run from the start, an evaluation that fails at the limit of the
/// interpreter fails at every greater limit.
pub proof fn lemma_stopped_is_endless(
    items: Seq<ItemView>,
    scope: Scope,
    expr: ExprView,
    greater: nat,
)
    ensures
        ({
            let state = run_spec(initial_view(), items).0;
            hit_limit(eval_spec(state.bindings, scope, expr, state.call_limit)) && greater
                >= state.call_limit ==> hit_limit(
                eval_spec(state.bindings, scope, expr, greater),
            )
        }),
{
    let state = run_spec(initial_view(), items).0;
    lemma_initial_limit();
    lemma_run_keeps_limit(initial_view(), items);
    if hit_limit(eval_spec(state.bindings, scope, expr, state.call_limit)) && greater
        >= state.call_limit {
        lemma_limit_is_enough(state.bindings, scope, expr, state.call_limit, greater);
    }
}

} // verus!
