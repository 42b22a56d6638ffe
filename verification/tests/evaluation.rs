use ecow::EcoString;
use exprlang::ast::{ArgList, BinaryOp, Expr, TopLevelItem, UnaryOp};
use exprlang::builtins::BuiltinFunction;
use exprlang::parse::{parse, ParseError};
use exprlang::run::{EvalError, Interpreter, Number};
use exprlang::table::NameMap;
use std::rc::Rc;

/// Carries out the arithmetic of a number.
fn value(number: &Number) -> f64 {
    match number {
        Number::Lit(text) => text.parse().expect("Failed to parse float literal"),
        Number::Given(bits) => f64::from_bits(*bits),
        Number::Negated(arg) => -value(arg),
        Number::Combined { op, left, right } => {
            let left = value(left);
            let right = value(right);
            match op {
                BinaryOp::Add => left + right,
                BinaryOp::Subtract => left - right,
                BinaryOp::DotProduct => left * right,
                BinaryOp::Divide => left / right,
            }
        }
        Number::Applied { func, arg } => {
            let arg = value(arg);
            match func {
                BuiltinFunction::Sqrt => arg.sqrt(),
                BuiltinFunction::Abs => arg.abs(),
                BuiltinFunction::Sin => arg.sin(),
                BuiltinFunction::Cos => arg.cos(),
                BuiltinFunction::Tan => arg.tan(),
                BuiltinFunction::Atan => arg.atan(),
            }
        }
    }
}

fn name(text: &str) -> EcoString {
    EcoString::from(text)
}

/// Runs a program and gives the values that it recorded, with their names.
fn run(text: &str) -> Result<Vec<(Option<EcoString>, f64)>, EvalError> {
    let mut interpreter = Interpreter::new();
    interpreter.run(parse(text).unwrap())?;
    Ok(interpreter.constants.iter().map(|(name, number)| (name.clone(), value(number))).collect())
}

/// Runs a program of which the last item is an expression, and gives its value.
fn last_value(text: &str) -> f64 {
    let (name, value) = run(text).unwrap().pop().unwrap();
    assert_eq!(name, None);
    value
}

#[test]
fn product_binds_tighter_than_sum() {
    assert_eq!(last_value("1 + 2 * 3"), 7.0);
    assert_ne!(last_value("1 + 2 * 3"), 9.0);
    assert_eq!(last_value("(1 + 2) * 3"), 9.0);
    assert_eq!(last_value("2 * 3 + 1"), 7.0);
    assert_eq!(last_value("1 - 6 / 3"), -1.0);
}

#[test]
fn subtraction_and_division_associate_to_the_left() {
    assert_eq!(last_value("8 - 3 - 2"), 3.0);
    assert_eq!(last_value("8 / 4 / 2"), 1.0);
    assert_eq!(last_value("8 - (3 - 2)"), 7.0);
}

#[test]
fn signs_chain() {
    assert_eq!(last_value("--5"), 5.0);
    assert_eq!(last_value("-+-5"), 5.0);
    assert_eq!(last_value("-5"), -5.0);
    assert_eq!(last_value("+5"), 5.0);
    assert_eq!(last_value("2 - -3"), 5.0);
    assert_eq!(last_value("-2 * 3"), -6.0);
}

#[test]
fn second_definition_of_a_name_fails() {
    assert_eq!(run("x := 1\nx := 1"), Err(EvalError::VariableAlreadyBound(name("x"))));
    assert_eq!(run("x := 1\nx(a) := a"), Err(EvalError::FunctionAlreadyBound(name("x"))));
    assert_eq!(run("f(a) := a\nf := 1"), Err(EvalError::VariableAlreadyBound(name("f"))));
    assert_eq!(run("sqrt := 1"), Err(EvalError::VariableAlreadyBound(name("sqrt"))));
    assert_eq!(run("abs(x) := x"), Err(EvalError::FunctionAlreadyBound(name("abs"))));
}

#[test]
fn failed_item_keeps_what_came_before() {
    let mut interpreter = Interpreter::new();
    let result = interpreter.run(parse("x := 1\n2\nx := 3\n4").unwrap());
    assert_eq!(result, Err(EvalError::VariableAlreadyBound(name("x"))));
    assert_eq!(interpreter.constants.len(), 2);
    assert_eq!(interpreter.constants[0].0, Some(name("x")));
    assert_eq!(value(&interpreter.constants[0].1), 1.0);
    assert_eq!(interpreter.constants[1].0, None);
    assert_eq!(value(&interpreter.constants[1].1), 2.0);
}

#[test]
fn wrong_number_of_arguments() {
    assert_eq!(
        run("f(x) := x\nf(1, 2)"),
        Err(EvalError::WrongArgumentCount { given: 2, expected: 1 })
    );
    assert_eq!(
        run("f(x, y) := x\nf(1)"),
        Err(EvalError::WrongArgumentCount { given: 1, expected: 2 })
    );
    assert_eq!(
        run("sqrt(1, 2)"),
        Err(EvalError::WrongArgumentCount { given: 2, expected: 1 })
    );
    assert_eq!(parse("f()"), Err(ParseError::NoArguments(name("f"))));
}

#[test]
fn builtin_functions() {
    assert_eq!(last_value("sqrt(4)"), 2.0);
    assert_eq!(last_value("abs(-3)"), 3.0);
    assert_eq!(last_value("abs(3)"), 3.0);
    assert_eq!(last_value("sin(0)"), 0.0);
    assert_eq!(last_value("cos(0)"), 1.0);
    assert_eq!(last_value("tan(0)"), 0.0);
    assert_eq!(last_value("atan(0)"), 0.0);
    assert_eq!(last_value("sqrt(abs(-16)) + 1"), 5.0);
}

#[test]
fn every_builtin_is_bound_under_its_name() {
    let all = BuiltinFunction::all();
    assert_eq!(
        all,
        vec![
            BuiltinFunction::Sqrt,
            BuiltinFunction::Abs,
            BuiltinFunction::Sin,
            BuiltinFunction::Cos,
            BuiltinFunction::Tan,
            BuiltinFunction::Atan,
        ]
    );
    let names: Vec<String> = all.iter().map(|builtin| builtin.to_string()).collect();
    assert_eq!(names, ["sqrt", "abs", "sin", "cos", "tan", "atan"]);
    let interpreter = Interpreter::new();
    for builtin in all {
        let call = Expr::Call {
            func: name(builtin.as_str()),
            args: ArgList::from_head(Expr::Lit(name("0"))),
        };
        let number = interpreter.evaluate(&call, &NameMap::new()).unwrap();
        assert_eq!(
            *number,
            Number::Applied { func: builtin, arg: Rc::new(Number::Lit(name("0"))) }
        );
    }
}

#[test]
fn body_is_resolved_when_the_function_is_called() {
    assert_eq!(last_value("f(x) := x + y\ny := 2\nf(1)"), 3.0);
    assert_eq!(run("f(x) := x + y\nf(1)\ny := 2"), Err(EvalError::UndefinedBinding(name("y"))));
    assert_eq!(last_value("f(x) := g(x) * 2\ng(x) := x + 1\nf(3)"), 8.0);
}

#[test]
fn arguments_are_evaluated_in_the_scope_of_the_caller() {
    assert_eq!(last_value("f(x) := x * 2\ng(y) := f(y + 1)\ng(3)"), 8.0);
    assert_eq!(
        run("f(x) := x\ng(y) := f(x)\ng(3)"),
        Err(EvalError::UndefinedBinding(name("x")))
    );
    assert_eq!(run("f(x) := y\ng(y) := f(1)\ng(3)"), Err(EvalError::UndefinedBinding(name("y"))));
}

#[test]
fn argument_comes_before_a_global_of_the_same_name() {
    assert_eq!(last_value("f(x) := x\nx := 5\nf(2)"), 2.0);
    assert_eq!(last_value("f(x) := x\nx := 5\nf(2) + x"), 7.0);
}

#[test]
fn later_parameter_of_the_same_name_wins() {
    assert_eq!(last_value("f(x, x) := x\nf(1, 2)"), 2.0);
}

#[test]
fn parameter_must_not_be_bound() {
    assert_eq!(run("x := 1\nf(x) := x"), Err(EvalError::ArgumentAlreadyBound(name("x"))));
    assert_eq!(run("y := 1\nf(x, y) := x"), Err(EvalError::ArgumentAlreadyBound(name("y"))));
    assert_eq!(run("f(sin) := 1"), Err(EvalError::ArgumentAlreadyBound(name("sin"))));
}

#[test]
fn kinds_of_bindings_are_told_apart() {
    assert_eq!(run("f(x) := x\nf"), Err(EvalError::NotAVariable(name("f"))));
    assert_eq!(run("sqrt + 1"), Err(EvalError::NotAVariable(name("sqrt"))));
    assert_eq!(run("x := 1\nx(2)"), Err(EvalError::NotAFunction(name("x"))));
    assert_eq!(run("g(2)"), Err(EvalError::UndefinedFunction(name("g"))));
    assert_eq!(run("y"), Err(EvalError::UndefinedBinding(name("y"))));
}

#[test]
fn function_is_not_found_among_the_arguments() {
    assert_eq!(run("f(g) := g(1)\nf(2)"), Err(EvalError::UndefinedFunction(name("g"))));
}

#[test]
fn left_operand_fails_first() {
    assert_eq!(run("a + b"), Err(EvalError::UndefinedBinding(name("a"))));
    assert_eq!(run("f(x, y) := x\nf(a, b)"), Err(EvalError::UndefinedBinding(name("a"))));
    assert_eq!(run("f(x) := x\nf(1, 2) + a"), Err(EvalError::WrongArgumentCount { given: 2, expected: 1 }));
}

#[test]
fn division_by_zero_is_no_error() {
    assert_eq!(last_value("1 / 0"), f64::INFINITY);
    assert_eq!(last_value("-1 / 0"), f64::NEG_INFINITY);
    assert!(last_value("0 / 0").is_nan());
    assert!(last_value("sqrt(-1)").is_nan());
}

#[test]
fn function_that_calls_itself_is_stopped() {
    assert_eq!(run("f(x) := f(x)\nf(1)"), Err(EvalError::EndlessRecursion(name("f"))));
    assert_eq!(
        run("f(x) := g(x)\ng(x) := f(x)\ng(1)"),
        Err(EvalError::EndlessRecursion(name("g")))
    );
    assert_eq!(run("f(x) := f(x, x)\nf(1)"), Err(EvalError::WrongArgumentCount { given: 2, expected: 1 }));
    assert_eq!(run("f(x) := y + f(x)\nf(1)"), Err(EvalError::UndefinedBinding(name("y"))));
}

#[test]
fn chain_of_calls_as_long_as_the_bindings_is_evaluated() {
    assert_eq!(
        last_value("a(x) := x + 1\nb(x) := a(x) + 1\nc(x) := b(x) + 1\nd(x) := c(x) + 1\nd(0)"),
        4.0
    );
}

#[test]
fn function_of_one_parameter_is_recorded() {
    let mut interpreter = Interpreter::new();
    interpreter.run(parse("f(x) := x * x\ng(a, b) := a\nh(t) := 1").unwrap()).unwrap();
    assert_eq!(interpreter.single_var_functions.len(), 2);
    assert_eq!(interpreter.single_var_functions[0].0, name("x"));
    assert_eq!(interpreter.single_var_functions[0].1.to_string(), "x * x");
    assert_eq!(interpreter.single_var_functions[1].0, name("t"));
    assert_eq!(interpreter.single_var_functions[1].1.to_string(), "1");
    assert_eq!(interpreter.constants.len(), 0);
}

#[test]
fn evaluate_with_given_arguments() {
    let mut interpreter = Interpreter::new();
    interpreter.run(parse("k := 10\nf(x) := x * k").unwrap()).unwrap();
    let (arg, body) = &interpreter.single_var_functions[0];
    let mut scope = NameMap::new();
    scope.insert(arg.clone(), Rc::new(Number::Given(2.5f64.to_bits())));
    let number = interpreter.evaluate(body, &scope).unwrap();
    assert_eq!(value(&number), 25.0);
    scope.insert(arg.clone(), Rc::new(Number::Given((-1.0f64).to_bits())));
    assert_eq!(value(&interpreter.evaluate(body, &scope).unwrap()), -10.0);
}

#[test]
fn evaluate_yields_the_arithmetic_that_is_left() {
    let interpreter = Interpreter::new();
    let expr = Expr::bin_op(
        BinaryOp::Add,
        Expr::Lit(name("1")),
        Expr::un_op(UnaryOp::Plus, Expr::un_op(UnaryOp::Negate, Expr::Lit(name("2.50")))),
    );
    assert_eq!(
        *interpreter.evaluate(&expr, &NameMap::new()).unwrap(),
        Number::Combined {
            op: BinaryOp::Add,
            left: Rc::new(Number::Lit(name("1"))),
            right: Rc::new(Number::Negated(Rc::new(Number::Lit(name("2.50"))))),
        }
    );
}

#[test]
fn add_item_one_by_one() {
    let mut interpreter = Interpreter::new();
    for item in parse("x := 2\nx * x").unwrap() {
        interpreter.add_item(item).unwrap();
    }
    assert_eq!(interpreter.constants().len(), 2);
    assert_eq!(value(&interpreter.constants()[1].1), 4.0);
    let again = TopLevelItem::Assignment { name: name("x"), body: Expr::Lit(name("3")) };
    assert_eq!(interpreter.add_item(again), Err(EvalError::VariableAlreadyBound(name("x"))));
    assert_eq!(interpreter.constants().len(), 2);
    assert_eq!(interpreter.single_var_functions().len(), 0);
}

#[test]
fn literals_in_every_form() {
    assert_eq!(last_value("1.5"), 1.5);
    assert_eq!(last_value("1."), 1.0);
    assert_eq!(last_value(".5"), 0.5);
    assert_eq!(last_value("007"), 7.0);
    assert_eq!(last_value("0.1 + 0.2"), 0.1 + 0.2);
}
