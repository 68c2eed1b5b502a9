use std::rc::Rc;

use interpreter::env::Env;
use interpreter::fault::Fault;
use interpreter::interpreter::{interpret, interpret_file, DEPTH_LIMIT};
use interpreter::number::Number;
use interpreter::types::{BinaryOp, File, Location, Parameter, Term};
use interpreter::value::Value;

fn loc() -> Location {
    Location { start: 0, end: 0, filename: String::from("test") }
}

fn lit(n: i32) -> Rc<Term> {
    Rc::new(Term::Int { value: Number::from_i32(n), location: loc() })
}

fn text(s: &str) -> Rc<Term> {
    Rc::new(Term::Str { value: String::from(s), location: loc() })
}

fn boolean(b: bool) -> Rc<Term> {
    Rc::new(Term::Bool { value: b, location: loc() })
}

fn var(name: &str) -> Rc<Term> {
    Rc::new(Term::Var { text: String::from(name), location: loc() })
}

fn param(name: &str) -> Parameter {
    Parameter { text: String::from(name), location: loc() }
}

fn let_in(name: &str, value: Rc<Term>, next: Rc<Term>) -> Rc<Term> {
    Rc::new(Term::Let { name: param(name), value, next, location: loc() })
}

fn binary(lhs: Rc<Term>, op: BinaryOp, rhs: Rc<Term>) -> Rc<Term> {
    Rc::new(Term::Binary { lhs, op, rhs, location: loc() })
}

fn function(parameters: &[&str], value: Rc<Term>) -> Rc<Term> {
    Rc::new(Term::Function {
        parameters: parameters.iter().map(|name| param(name)).collect(),
        value,
        location: loc(),
    })
}

fn call(callee: Rc<Term>, arguments: Vec<Rc<Term>>) -> Rc<Term> {
    Rc::new(Term::Call { callee, arguments, location: loc() })
}

fn tuple(first: Rc<Term>, second: Rc<Term>) -> Rc<Term> {
    Rc::new(Term::Tuple { first, second, location: loc() })
}

fn first(value: Rc<Term>) -> Rc<Term> {
    Rc::new(Term::First { value, location: loc() })
}

fn second(value: Rc<Term>) -> Rc<Term> {
    Rc::new(Term::Second { value, location: loc() })
}

fn print(value: Rc<Term>) -> Rc<Term> {
    Rc::new(Term::Print { value, location: loc() })
}

fn if_else(condition: Rc<Term>, then: Rc<Term>, otherwise: Rc<Term>) -> Rc<Term> {
    Rc::new(Term::If { condition, then, otherwise, location: loc() })
}

fn run(term: Rc<Term>) -> (Result<Value, Fault>, Vec<String>) {
    let evaluation = interpret_file(&File { expression: term, location: loc() });
    (evaluation.result, evaluation.output)
}

fn value_of(term: Rc<Term>) -> Result<Value, Fault> {
    run(term).0
}

fn number(n: i32) -> Value {
    Value::Number(Number::from_i32(n))
}

fn string(s: &str) -> Value {
    Value::String(String::from(s))
}

fn mismatch(expected: &str) -> Fault {
    Fault::TypeMismatch(String::from(expected))
}

#[test]
fn number_literal_evaluates_to_its_number() {
    assert_eq!(run(lit(42)), (Ok(number(42)), vec![]));
    assert_eq!(run(lit(-7)), (Ok(number(-7)), vec![]));
}

#[test]
fn string_literal_evaluates_to_its_string() {
    assert_eq!(run(text("hello")), (Ok(string("hello")), vec![]));
    assert_eq!(run(text("")), (Ok(string("")), vec![]));
}

#[test]
fn boolean_literal_evaluates_to_its_boolean() {
    assert_eq!(run(boolean(true)), (Ok(Value::Boolean(true)), vec![]));
    assert_eq!(run(boolean(false)), (Ok(Value::Boolean(false)), vec![]));
}

#[test]
fn let_value_does_not_see_its_own_name() {
    let program = let_in("x", var("x"), var("x"));
    assert_eq!(value_of(program), Err(Fault::UndefinedVariable(String::from("x"))));
}

#[test]
fn let_value_sees_an_outer_binding_of_its_name() {
    let program = let_in("x", lit(1), let_in("x", binary(var("x"), BinaryOp::Add, lit(1)), var("x")));
    assert_eq!(value_of(program), Ok(number(2)));
}

#[test]
fn inner_binding_shadows_outer_binding() {
    let program = let_in("x", lit(1), let_in("x", lit(2), var("x")));
    assert_eq!(value_of(program), Ok(number(2)));
}

#[test]
fn shadowing_ends_with_the_inner_scope() {
    // (let x = 1 in (let x = 2 in x, x)) keeps the outer x for the second component
    let program = let_in("x", lit(1), tuple(let_in("x", lit(2), var("x")), var("x")));
    assert_eq!(value_of(program), Ok(Value::Tuple(Box::new(number(2)), Box::new(number(1)))));
}

#[test]
fn addition_of_numbers() {
    assert_eq!(value_of(binary(lit(2), BinaryOp::Add, lit(3))), Ok(number(5)));
}

#[test]
fn subtraction_and_multiplication() {
    assert_eq!(value_of(binary(lit(2), BinaryOp::Sub, lit(5))), Ok(number(-3)));
    assert_eq!(value_of(binary(lit(-4), BinaryOp::Mul, lit(6))), Ok(number(-24)));
}

#[test]
fn division_rounds_down() {
    assert_eq!(value_of(binary(lit(7), BinaryOp::Div, lit(2))), Ok(number(3)));
    assert_eq!(value_of(binary(lit(-7), BinaryOp::Div, lit(2))), Ok(number(-4)));
    assert_eq!(value_of(binary(lit(7), BinaryOp::Div, lit(-2))), Ok(number(-4)));
    assert_eq!(value_of(binary(lit(-7), BinaryOp::Div, lit(-2))), Ok(number(3)));
    assert_eq!(value_of(binary(lit(6), BinaryOp::Div, lit(-2))), Ok(number(-3)));
    assert_eq!(value_of(binary(lit(1), BinaryOp::Div, lit(3))), Ok(number(0)));
    assert_eq!(value_of(binary(lit(-1), BinaryOp::Div, lit(3))), Ok(number(-1)));
}

#[test]
fn division_by_zero_is_infinite_or_nan() {
    assert_eq!(
        value_of(binary(lit(1), BinaryOp::Div, lit(0))),
        Ok(Value::Number(Number::infinity()))
    );
    assert_eq!(
        value_of(binary(lit(-1), BinaryOp::Div, lit(0))),
        Ok(Value::Number(Number::neg_infinity()))
    );
    assert_eq!(value_of(binary(lit(0), BinaryOp::Div, lit(0))), Ok(Value::Number(Number::nan())));
}

#[test]
fn division_by_negative_zero_flips_the_sign() {
    let negative_zero = binary(lit(0), BinaryOp::Mul, lit(-1));
    assert_eq!(value_of(negative_zero.clone()), Ok(Value::Number(Number::neg_zero())));
    assert_eq!(
        value_of(binary(lit(1), BinaryOp::Div, negative_zero)),
        Ok(Value::Number(Number::neg_infinity()))
    );
}

#[test]
fn infinity_propagates_through_arithmetic() {
    let infinity = binary(lit(1), BinaryOp::Div, lit(0));
    assert_eq!(
        value_of(binary(infinity.clone(), BinaryOp::Add, lit(1))),
        Ok(Value::Number(Number::infinity()))
    );
    assert_eq!(
        value_of(binary(infinity.clone(), BinaryOp::Sub, infinity.clone())),
        Ok(Value::Number(Number::nan()))
    );
    assert_eq!(
        value_of(binary(infinity.clone(), BinaryOp::Mul, lit(0))),
        Ok(Value::Number(Number::nan()))
    );
    assert_eq!(value_of(binary(lit(5), BinaryOp::Div, infinity.clone())), Ok(number(0)));
    assert_eq!(value_of(binary(lit(5), BinaryOp::Rem, infinity)), Ok(number(5)));
}

#[test]
fn remainder_has_the_sign_of_the_dividend() {
    assert_eq!(value_of(binary(lit(7), BinaryOp::Rem, lit(2))), Ok(number(1)));
    assert_eq!(value_of(binary(lit(-7), BinaryOp::Rem, lit(2))), Ok(number(-1)));
    assert_eq!(value_of(binary(lit(7), BinaryOp::Rem, lit(-2))), Ok(number(1)));
    assert_eq!(
        value_of(binary(lit(-4), BinaryOp::Rem, lit(2))),
        Ok(Value::Number(Number::neg_zero()))
    );
    assert_eq!(value_of(binary(lit(4), BinaryOp::Rem, lit(0))), Ok(Value::Number(Number::nan())));
}

#[test]
fn arithmetic_beyond_the_exact_integers_rounds_to_the_nearest_double() {
    let limit = Rc::new(Term::Int {
        value: Number::from_i64(9_007_199_254_740_992).unwrap(),
        location: loc(),
    });
    // 2^53 + 1 lies between two doubles; the tie goes to the even one, 2^53
    assert_eq!(
        value_of(binary(limit.clone(), BinaryOp::Add, lit(1))),
        Ok(Value::Number(Number::from_i64(9_007_199_254_740_992).unwrap()))
    );
    assert_eq!(
        value_of(binary(limit.clone(), BinaryOp::Add, lit(3))),
        Ok(Value::Number(Number::from_i64(9_007_199_254_740_996).unwrap()))
    );
    assert_eq!(
        value_of(binary(limit.clone(), BinaryOp::Mul, lit(2))),
        Ok(Value::Number(Number::from_i64(18_014_398_509_481_984).unwrap()))
    );
    // 2^53 * 2^53 is 2^106, which a double holds exactly
    assert_eq!(
        value_of(binary(limit.clone(), BinaryOp::Mul, limit.clone())),
        Ok(Value::Number(Number::from_parts(false, 1, 106)))
    );
    assert_eq!(
        value_of(binary(lit(0), BinaryOp::Sub, limit.clone())),
        Ok(Value::Number(Number::from_i64(-9_007_199_254_740_992).unwrap()))
    );
    assert_eq!(
        value_of(binary(limit, BinaryOp::Sub, lit(1))),
        Ok(Value::Number(Number::from_i64(9_007_199_254_740_991).unwrap()))
    );
}

#[test]
fn arithmetic_beyond_the_largest_double_is_infinite() {
    let largest = Rc::new(Term::Int {
        value: Number::from_parts(false, 9_007_199_254_740_991, 971),
        location: loc(),
    });
    assert_eq!(
        value_of(binary(largest.clone(), BinaryOp::Add, largest.clone())),
        Ok(Value::Number(Number::infinity()))
    );
    assert_eq!(
        value_of(binary(largest.clone(), BinaryOp::Mul, lit(-2))),
        Ok(Value::Number(Number::neg_infinity()))
    );
    assert_eq!(
        value_of(binary(largest.clone(), BinaryOp::Add, lit(1))),
        Ok(Value::Number(Number::from_parts(false, 9_007_199_254_740_991, 971)))
    );
}

#[test]
fn string_and_number_concatenate() {
    assert_eq!(value_of(binary(text("a"), BinaryOp::Add, lit(1))), Ok(string("a1")));
    assert_eq!(value_of(binary(lit(1), BinaryOp::Add, text("a"))), Ok(string("1a")));
    assert_eq!(value_of(binary(text("a"), BinaryOp::Add, text("b"))), Ok(string("ab")));
    assert_eq!(value_of(binary(text("n = "), BinaryOp::Add, lit(-12))), Ok(string("n = -12")));
}

#[test]
fn boolean_cannot_be_added() {
    assert_eq!(
        value_of(binary(boolean(true), BinaryOp::Add, lit(1))),
        Err(mismatch("string or number"))
    );
    assert_eq!(
        value_of(binary(text("a"), BinaryOp::Add, boolean(false))),
        Err(mismatch("string or number"))
    );
    assert_eq!(
        value_of(binary(tuple(lit(1), lit(2)), BinaryOp::Add, text("a"))),
        Err(mismatch("string or number"))
    );
}

#[test]
fn equality_of_one_kind() {
    assert_eq!(value_of(binary(lit(1), BinaryOp::Eq, lit(1))), Ok(Value::Boolean(true)));
    assert_eq!(value_of(binary(lit(1), BinaryOp::Eq, lit(2))), Ok(Value::Boolean(false)));
    assert_eq!(value_of(binary(lit(1), BinaryOp::Neq, lit(2))), Ok(Value::Boolean(true)));
    assert_eq!(value_of(binary(text("a"), BinaryOp::Eq, text("a"))), Ok(Value::Boolean(true)));
    assert_eq!(value_of(binary(text("a"), BinaryOp::Neq, text("a"))), Ok(Value::Boolean(false)));
    assert_eq!(
        value_of(binary(boolean(true), BinaryOp::Eq, boolean(false))),
        Ok(Value::Boolean(false))
    );
}

#[test]
fn equality_across_kinds_faults() {
    assert_eq!(
        value_of(binary(lit(1), BinaryOp::Eq, text("1"))),
        Err(mismatch("number or string or boolean"))
    );
    assert_eq!(
        value_of(binary(boolean(true), BinaryOp::Neq, lit(1))),
        Err(mismatch("number or string or boolean"))
    );
    assert_eq!(
        value_of(binary(tuple(lit(1), lit(2)), BinaryOp::Eq, tuple(lit(1), lit(2)))),
        Err(mismatch("number or string or boolean"))
    );
    let identity = function(&["x"], var("x"));
    assert_eq!(
        value_of(binary(identity.clone(), BinaryOp::Eq, identity)),
        Err(mismatch("number or string or boolean"))
    );
}

#[test]
fn the_two_zeros_are_equal_and_infinity_equals_nothing() {
    let negative_zero = binary(lit(0), BinaryOp::Mul, lit(-1));
    assert_eq!(value_of(binary(negative_zero, BinaryOp::Eq, lit(0))), Ok(Value::Boolean(true)));
    let infinity = binary(lit(1), BinaryOp::Div, lit(0));
    assert_eq!(
        value_of(binary(infinity.clone(), BinaryOp::Eq, infinity.clone())),
        Ok(Value::Boolean(false))
    );
    assert_eq!(
        value_of(binary(infinity.clone(), BinaryOp::Neq, infinity)),
        Ok(Value::Boolean(true))
    );
}

#[test]
fn comparisons_of_numbers() {
    assert_eq!(value_of(binary(lit(1), BinaryOp::Lt, lit(2))), Ok(Value::Boolean(true)));
    assert_eq!(value_of(binary(lit(2), BinaryOp::Lt, lit(2))), Ok(Value::Boolean(false)));
    assert_eq!(value_of(binary(lit(3), BinaryOp::Gt, lit(2))), Ok(Value::Boolean(true)));
    assert_eq!(value_of(binary(lit(2), BinaryOp::Gt, lit(2))), Ok(Value::Boolean(false)));
    assert_eq!(value_of(binary(lit(2), BinaryOp::Lte, lit(2))), Ok(Value::Boolean(true)));
    assert_eq!(value_of(binary(lit(3), BinaryOp::Lte, lit(2))), Ok(Value::Boolean(false)));
    assert_eq!(value_of(binary(lit(2), BinaryOp::Gte, lit(2))), Ok(Value::Boolean(true)));
    assert_eq!(value_of(binary(lit(1), BinaryOp::Gte, lit(2))), Ok(Value::Boolean(false)));
}

#[test]
fn comparisons_with_nan_are_false() {
    let nan = binary(lit(0), BinaryOp::Div, lit(0));
    assert_eq!(value_of(binary(nan.clone(), BinaryOp::Lt, lit(1))), Ok(Value::Boolean(false)));
    assert_eq!(value_of(binary(nan.clone(), BinaryOp::Gte, lit(1))), Ok(Value::Boolean(false)));
    assert_eq!(value_of(binary(nan.clone(), BinaryOp::Lte, nan)), Ok(Value::Boolean(false)));
}

#[test]
fn comparisons_need_numbers() {
    assert_eq!(value_of(binary(text("a"), BinaryOp::Lt, lit(1))), Err(mismatch("number")));
    assert_eq!(value_of(binary(lit(1), BinaryOp::Sub, boolean(true))), Err(mismatch("number")));
    assert_eq!(value_of(binary(lit(1), BinaryOp::Div, text("2"))), Err(mismatch("number")));
}

#[test]
fn logical_operators() {
    assert_eq!(
        value_of(binary(boolean(true), BinaryOp::And, boolean(false))),
        Ok(Value::Boolean(false))
    );
    assert_eq!(
        value_of(binary(boolean(true), BinaryOp::And, boolean(true))),
        Ok(Value::Boolean(true))
    );
    assert_eq!(
        value_of(binary(boolean(false), BinaryOp::Or, boolean(true))),
        Ok(Value::Boolean(true))
    );
    assert_eq!(
        value_of(binary(boolean(false), BinaryOp::Or, boolean(false))),
        Ok(Value::Boolean(false))
    );
    assert_eq!(value_of(binary(lit(1), BinaryOp::And, boolean(true))), Err(mismatch("boolean")));
    assert_eq!(value_of(binary(boolean(true), BinaryOp::Or, lit(1))), Err(mismatch("boolean")));
}

#[test]
fn closure_sees_the_environment_of_its_definition() {
    // let x = 1 in let f = fn () => x in let x = 2 in f()
    let program = let_in(
        "x",
        lit(1),
        let_in("f", function(&[], var("x")), let_in("x", lit(2), call(var("f"), vec![]))),
    );
    assert_eq!(value_of(program), Ok(number(1)));
}

#[test]
fn closure_does_not_see_the_environment_of_its_caller() {
    // let f = fn () => y in let y = 1 in f()
    let program = let_in("f", function(&[], var("y")), let_in("y", lit(1), call(var("f"), vec![])));
    assert_eq!(value_of(program), Err(Fault::UndefinedVariable(String::from("y"))));
}

#[test]
fn arguments_are_evaluated_in_the_environment_of_the_caller() {
    // let x = 1 in let f = fn (a) => a + x in let x = 10 in f(x)
    let program = let_in(
        "x",
        lit(1),
        let_in(
            "f",
            function(&["a"], binary(var("a"), BinaryOp::Add, var("x"))),
            let_in("x", lit(10), call(var("f"), vec![var("x")])),
        ),
    );
    assert_eq!(value_of(program), Ok(number(11)));
}

#[test]
fn call_with_too_many_arguments_faults() {
    let program = call(function(&["a"], var("a")), vec![lit(1), lit(2)]);
    assert_eq!(value_of(program), Err(Fault::ArityMismatch(1, 2)));
}

#[test]
fn call_with_too_few_arguments_faults_before_evaluating_any() {
    let program = call(function(&["a", "b"], var("a")), vec![print(lit(1))]);
    assert_eq!(run(program), (Err(Fault::ArityMismatch(2, 1)), vec![]));
}

#[test]
fn call_of_a_value_that_is_no_closure_faults() {
    assert_eq!(value_of(call(lit(1), vec![])), Err(mismatch("closure")));
}

#[test]
fn later_parameter_of_the_same_name_wins() {
    let program = call(function(&["a", "a"], var("a")), vec![lit(1), lit(2)]);
    assert_eq!(value_of(program), Ok(number(2)));
}

#[test]
fn arguments_are_evaluated_in_order() {
    let program = call(
        function(&["a", "b"], binary(var("a"), BinaryOp::Sub, var("b"))),
        vec![print(lit(10)), print(lit(3))],
    );
    assert_eq!(run(program), (Ok(number(7)), vec![String::from("10"), String::from("3")]));
}

#[test]
fn a_closure_can_be_called_more_than_once() {
    // let double = fn (n) => n * 2 in double(double(5))
    let program = let_in(
        "double",
        function(&["n"], binary(var("n"), BinaryOp::Mul, lit(2))),
        call(var("double"), vec![call(var("double"), vec![lit(5)])]),
    );
    assert_eq!(value_of(program), Ok(number(20)));
}

#[test]
fn function_literal_makes_a_closure_without_evaluating_its_body() {
    let body = print(var("missing"));
    let (result, output) = run(function(&["a", "b"], body.clone()));
    assert_eq!(output, Vec::<String>::new());
    match result {
        Ok(Value::Closure(closure)) => {
            assert_eq!(closure.parameters, vec![String::from("a"), String::from("b")]);
            assert_eq!(closure.body, body);
            assert_eq!(closure.env, Env::new());
        }
        other => panic!("expected a closure, got {:?}", other),
    }
}

#[test]
fn tuple_round_trip() {
    assert_eq!(value_of(first(tuple(lit(1), text("b")))), Ok(number(1)));
    assert_eq!(value_of(second(tuple(lit(1), text("b")))), Ok(string("b")));
    let nested = tuple(tuple(boolean(true), lit(2)), lit(3));
    assert_eq!(
        value_of(first(nested.clone())),
        Ok(Value::Tuple(Box::new(Value::Boolean(true)), Box::new(number(2))))
    );
    assert_eq!(value_of(second(first(nested))), Ok(number(2)));
}

#[test]
fn projection_of_a_value_that_is_no_tuple_faults() {
    assert_eq!(value_of(first(lit(1))), Err(mismatch("tuple")));
    assert_eq!(value_of(second(text("ab"))), Err(mismatch("tuple")));
}

#[test]
fn tuple_components_are_evaluated_first_then_second() {
    let program = tuple(print(lit(1)), print(lit(2)));
    assert_eq!(
        run(program),
        (
            Ok(Value::Tuple(Box::new(number(1)), Box::new(number(2)))),
            vec![String::from("1"), String::from("2")]
        )
    );
}

#[test]
fn print_returns_its_value_and_emits_its_text() {
    assert_eq!(run(print(lit(5))), (Ok(number(5)), vec![String::from("5")]));
    assert_eq!(run(print(text("hi"))), (Ok(string("hi")), vec![String::from("hi")]));
    assert_eq!(
        run(binary(print(lit(2)), BinaryOp::Add, lit(3))),
        (Ok(number(5)), vec![String::from("2")])
    );
}

#[test]
fn print_renders_every_kind_of_value() {
    let program = print(tuple(
        tuple(lit(-3), boolean(true)),
        tuple(text("s"), function(&["x"], var("x"))),
    ));
    let (_, output) = run(program);
    assert_eq!(output, vec![String::from("((-3, true), (s, <#closure>))")]);
    let (_, output) = run(print(boolean(false)));
    assert_eq!(output, vec![String::from("false")]);
}

#[test]
fn print_renders_the_special_numbers() {
    let (_, output) = run(print(binary(lit(1), BinaryOp::Div, lit(0))));
    assert_eq!(output, vec![String::from("inf")]);
    let (_, output) = run(print(binary(lit(-1), BinaryOp::Div, lit(0))));
    assert_eq!(output, vec![String::from("-inf")]);
    let (_, output) = run(print(binary(lit(0), BinaryOp::Div, lit(0))));
    assert_eq!(output, vec![String::from("NaN")]);
    let (_, output) = run(print(binary(lit(0), BinaryOp::Mul, lit(-1))));
    assert_eq!(output, vec![String::from("-0")]);
}

#[test]
fn and_evaluates_its_right_operand_when_the_left_is_false() {
    let program = binary(boolean(false), BinaryOp::And, print(boolean(true)));
    assert_eq!(run(program), (Ok(Value::Boolean(false)), vec![String::from("true")]));
}

#[test]
fn or_evaluates_its_right_operand_when_the_left_is_true() {
    let program = binary(boolean(true), BinaryOp::Or, print(boolean(false)));
    assert_eq!(run(program), (Ok(Value::Boolean(true)), vec![String::from("false")]));
}

#[test]
fn and_surfaces_a_fault_of_its_right_operand() {
    let program = binary(boolean(false), BinaryOp::And, var("missing"));
    assert_eq!(value_of(program), Err(Fault::UndefinedVariable(String::from("missing"))));
}

#[test]
fn operands_are_evaluated_left_to_right() {
    let program = binary(print(lit(1)), BinaryOp::Add, print(lit(2)));
    assert_eq!(run(program), (Ok(number(3)), vec![String::from("1"), String::from("2")]));
}

#[test]
fn fault_keeps_what_was_printed_before_it() {
    let program = binary(print(lit(1)), BinaryOp::Add, binary(print(text("x")), BinaryOp::Sub, lit(1)));
    assert_eq!(
        run(program),
        (Err(mismatch("number")), vec![String::from("1"), String::from("x")])
    );
}

#[test]
fn fault_of_the_left_operand_skips_the_right_one() {
    let program = binary(var("missing"), BinaryOp::Add, print(lit(2)));
    assert_eq!(run(program), (Err(Fault::UndefinedVariable(String::from("missing"))), vec![]));
}

#[test]
fn conditional_evaluates_one_branch() {
    let program = if_else(boolean(true), print(lit(1)), print(lit(2)));
    assert_eq!(run(program), (Ok(number(1)), vec![String::from("1")]));
    let program = if_else(boolean(false), print(lit(1)), print(lit(2)));
    assert_eq!(run(program), (Ok(number(2)), vec![String::from("2")]));
}

#[test]
fn conditional_needs_a_boolean() {
    assert_eq!(value_of(if_else(lit(1), lit(2), lit(3))), Err(mismatch("boolean")));
}

#[test]
fn conditional_branches_share_the_scope_of_the_conditional() {
    let program = let_in(
        "x",
        lit(4),
        if_else(binary(var("x"), BinaryOp::Gt, lit(3)), var("x"), lit(0)),
    );
    assert_eq!(value_of(program), Ok(number(4)));
}

#[test]
fn undefined_variable_faults() {
    assert_eq!(value_of(var("nowhere")), Err(Fault::UndefinedVariable(String::from("nowhere"))));
}

#[test]
fn recursion_through_self_application() {
    // let sum = fn (self, n) => if n == 0 then 0 else n + self(self, n - 1) in sum(sum, 10)
    let body = if_else(
        binary(var("n"), BinaryOp::Eq, lit(0)),
        lit(0),
        binary(
            var("n"),
            BinaryOp::Add,
            call(var("self"), vec![var("self"), binary(var("n"), BinaryOp::Sub, lit(1))]),
        ),
    );
    let program = let_in(
        "sum",
        function(&["self", "n"], body),
        call(var("sum"), vec![var("sum"), lit(10)]),
    );
    assert_eq!(value_of(program), Ok(number(55)));
}

#[test]
fn fibonacci() {
    // let fib = fn (self, n) => if n < 2 then n else self(self, n - 1) + self(self, n - 2)
    let body = if_else(
        binary(var("n"), BinaryOp::Lt, lit(2)),
        var("n"),
        binary(
            call(var("self"), vec![var("self"), binary(var("n"), BinaryOp::Sub, lit(1))]),
            BinaryOp::Add,
            call(var("self"), vec![var("self"), binary(var("n"), BinaryOp::Sub, lit(2))]),
        ),
    );
    let program = let_in(
        "fib",
        function(&["self", "n"], body),
        print(call(var("fib"), vec![var("fib"), lit(15)])),
    );
    assert_eq!(run(program), (Ok(number(610)), vec![String::from("610")]));
}

#[test]
fn endless_recursion_ends_at_the_depth_limit() {
    // let loop = fn (self) => self(self) in loop(loop)
    let program = let_in(
        "loop",
        function(&["self"], call(var("self"), vec![var("self")])),
        call(var("loop"), vec![var("loop")]),
    );
    assert_eq!(value_of(program), Err(Fault::DepthExceeded));
}

#[test]
fn depth_counts_nested_terms() {
    let env = Env::new();
    let term = binary(lit(1), BinaryOp::Add, binary(lit(2), BinaryOp::Add, lit(3)));
    let mut output: Vec<String> = Vec::new();
    assert_eq!(interpret(&term, &env, 0, &mut output), Err(Fault::DepthExceeded));
    assert_eq!(interpret(&term, &env, 2, &mut output), Err(Fault::DepthExceeded));
    assert_eq!(interpret(&term, &env, 3, &mut output), Ok(number(6)));
    assert_eq!(interpret(&term, &env, DEPTH_LIMIT, &mut output), Ok(number(6)));
    assert_eq!(output, Vec::<String>::new());
}

#[test]
fn interpret_appends_to_the_output_it_is_given() {
    let env = Env::new().extend(String::from("x"), number(9));
    let mut output: Vec<String> = vec![String::from("before")];
    assert_eq!(interpret(&print(var("x")), &env, 10, &mut output), Ok(number(9)));
    assert_eq!(output, vec![String::from("before"), String::from("9")]);
}
