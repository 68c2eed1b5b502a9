//! The evaluator.

use std::rc::Rc;
use vstd::prelude::*;
use crate::env::Env;
use crate::fault::{type_mismatch, Fault, FaultView};
use crate::semantics::{
    apply_binary,
    bind_all,
    eval,
    eval_arguments,
    lemma_arguments_stop_at_fault,
    values_equal,
};
use crate::types::{parameter_names, BinaryOp, File, Parameter, Term, TermView};
use crate::value::{
    assert_bool,
    assert_closure,
    assert_int,
    assert_tuple,
    cast_to_string,
    result_view,
    share,
    show_value,
    texts,
    Closure,
    Value,
    ValueView,
};

verus! {

/// How deep [`interpret_file`] lets an evaluation nest.
pub const DEPTH_LIMIT: usize = 2000;

/// Whether two values are equal, for the operators `Eq` and `Neq`.
pub fn is_equal(left: &Value, right: &Value) -> (equal: Result<bool, Fault>)
    ensures
        match equal {
            Ok(b) => values_equal(left@, right@) == Ok::<bool, FaultView>(b),
            Err(fault) => values_equal(left@, right@) == Err::<bool, FaultView>(fault@),
        },
{
    match (left, right) {
        (Value::Number(l), Value::Number(r)) => Ok(l.close_to(r)),
        (Value::String(l), Value::String(r)) => Ok(*l == *r),
        (Value::Boolean(l), Value::Boolean(r)) => Ok(*l == *r),
        _ => Err(type_mismatch("number or string or boolean")),
    }
}

/// Applies a binary operator to its two operands.
pub fn interpret_binary(left: &Value, right: &Value, op: &BinaryOp) -> (result: Result<Value, Fault>)
    ensures
        result_view(result) == apply_binary(*op, left@, right@),
{
    match op {
        BinaryOp::Add => {
            if let (Value::Number(l), Value::Number(r)) = (left, right) {
                Ok(Value::Number(l.add(r)))
            } else {
                let left_val = match cast_to_string(left) {
                    Ok(text) => text,
                    Err(fault) => {
                        return Err(fault);
                    },
                };
                let right_val = match cast_to_string(right) {
                    Ok(text) => text,
                    Err(fault) => {
                        return Err(fault);
                    },
                };
                Ok(Value::String(left_val.concat(right_val.as_str())))
            }
        },
        BinaryOp::Eq => {
            match is_equal(left, right) {
                Ok(value) => Ok(Value::Boolean(value)),
                Err(fault) => Err(fault),
            }
        },
        BinaryOp::Neq => {
            match is_equal(left, right) {
                Ok(value) => Ok(Value::Boolean(!value)),
                Err(fault) => Err(fault),
            }
        },
        BinaryOp::And => {
            let left_val = match assert_bool(left) {
                Ok(b) => b,
                Err(fault) => {
                    return Err(fault);
                },
            };
            let right_val = match assert_bool(right) {
                Ok(b) => b,
                Err(fault) => {
                    return Err(fault);
                },
            };
            Ok(Value::Boolean(left_val && right_val))
        },
        BinaryOp::Or => {
            let left_val = match assert_bool(left) {
                Ok(b) => b,
                Err(fault) => {
                    return Err(fault);
                },
            };
            let right_val = match assert_bool(right) {
                Ok(b) => b,
                Err(fault) => {
                    return Err(fault);
                },
            };
            Ok(Value::Boolean(left_val || right_val))
        },
        _ => {
            let left_val = match assert_int(left) {
                Ok(n) => n,
                Err(fault) => {
                    return Err(fault);
                },
            };
            let right_val = match assert_int(right) {
                Ok(n) => n,
                Err(fault) => {
                    return Err(fault);
                },
            };
            match op {
                BinaryOp::Sub => Ok(Value::Number(left_val.sub(&right_val))),
                BinaryOp::Mul => Ok(Value::Number(left_val.mul(&right_val))),
                BinaryOp::Div => Ok(Value::Number(left_val.div(&right_val))),
                BinaryOp::Rem => Ok(Value::Number(left_val.rem(&right_val))),
                BinaryOp::Lt => Ok(Value::Boolean(left_val.lt(&right_val))),
                BinaryOp::Gt => Ok(Value::Boolean(right_val.lt(&left_val))),
                BinaryOp::Lte => Ok(Value::Boolean(left_val.le(&right_val))),
                _ => Ok(Value::Boolean(right_val.le(&left_val))),
            }
        },
    }
}

/// The names of a function's parameters.
fn parameter_texts(parameters: &Vec<Parameter>) -> (names: Vec<String>)
    ensures
        texts(names@) == parameter_names(parameters@),
{
    let mut names: Vec<String> = Vec::new();
    let mut i: usize = 0;
    while i < parameters.len()
        invariant
            i <= parameters.len(),
            names.len() == i,
            forall|j: int| 0 <= j < i ==> names[j]@ == parameters[j].text@,
        decreases parameters.len() - i,
    {
        names.push(parameters[i].text.clone());
        i += 1;
    }
    assert(texts(names@) =~= parameter_names(parameters@));
    names
}

/// Evaluates the arguments of a call in the caller's environment, one after the other, and
/// binds each to its parameter on top of the closure's own environment.
fn bind_arguments(
    closure: &Closure,
    arguments: &Vec<Rc<Term>>,
    Ghost(views): Ghost<Seq<TermView>>,
    env: &Env,
    depth: usize,
    output: &mut Vec<String>,
) -> (bound: Result<Env, Fault>)
    requires
        closure.parameters.len() == arguments.len(),
        views.len() == arguments.len(),
        forall|i: int| 0 <= i < arguments.len() ==> views[i] == (*arguments[i])@,
    ensures
        ({
            let passed = eval_arguments(views, views.len(), env@, depth as nat);
            &&& match bound {
                Ok(extended) => passed.result is Ok && extended@ == bind_all(
                    closure.env@,
                    texts(closure.parameters@),
                    passed.result->Ok_0,
                ),
                Err(fault) => passed.result == Err::<Seq<ValueView>, FaultView>(fault@),
            }
            &&& texts(final(output)@) == texts(old(output)@) + passed.output
        }),
    decreases depth, 1nat,
{
    let mut function_env = closure.env.clone_env();
    let ghost names = texts(closure.parameters@);
    let mut i: usize = 0;
    assert(texts(output@) + Seq::<Seq<char>>::empty() =~= texts(output@));
    while i < arguments.len()
        invariant
            i <= arguments.len(),
            closure.parameters.len() == arguments.len(),
            views.len() == arguments.len(),
            names == texts(closure.parameters@),
            forall|j: int| 0 <= j < arguments.len() ==> views[j] == (*arguments[j])@,
            eval_arguments(views, i as nat, env@, depth as nat).result is Ok,
            function_env@ == bind_all(
                closure.env@,
                names.take(i as int),
                eval_arguments(views, i as nat, env@, depth as nat).result->Ok_0.take(i as int),
            ),
            eval_arguments(views, i as nat, env@, depth as nat).result->Ok_0.len() == i,
            texts(output@) == texts(old(output)@) + eval_arguments(
                views,
                i as nat,
                env@,
                depth as nat,
            ).output,
        decreases arguments.len() - i,
    {
        let ghost before = eval_arguments(views, i as nat, env@, depth as nat);
        let ghost printed = texts(output@);
        let ghost this = eval(views[i as int], env@, depth as nat);
        let arg_value = match interpret(&*arguments[i], env, depth, output) {
            Ok(value) => value,
            Err(fault) => {
                assert(texts(output@) =~= texts(old(output)@) + (before.output + this.output));
                proof {
                    lemma_arguments_stop_at_fault(
                        views,
                        (i + 1) as nat,
                        views.len(),
                        env@,
                        depth as nat,
                    );
                }
                return Err(fault);
            },
        };
        assert(texts(output@) =~= texts(old(output)@) + (before.output + this.output));
        function_env = function_env.extend(closure.parameters[i].clone(), arg_value);
        proof {
            let now = eval_arguments(views, (i + 1) as nat, env@, depth as nat);
            let values = now.result->Ok_0;
            assert(values == before.result->Ok_0.push(arg_value@));
            assert(names.take(i + 1).drop_last() =~= names.take(i as int));
            assert(values.take(i + 1).drop_last() =~= before.result->Ok_0.take(i as int));
            assert(names.take(i + 1).last() == closure.parameters[i as int]@);
            assert(values.take(i + 1).last() == arg_value@);
        }
        i += 1;
    }
    proof {
        let passed = eval_arguments(views, views.len(), env@, depth as nat);
        assert(names.take(i as int) =~= names);
        assert(passed.result->Ok_0.take(i as int) =~= passed.result->Ok_0);
    }
    Ok(function_env)
}

/// Evaluates `term` in `env`, nesting at most `depth` deep, and appends to `output` the lines
/// that the evaluation prints.
pub fn interpret(term: &Term, env: &Env, depth: usize, output: &mut Vec<String>) -> (result: Result<
    Value,
    Fault,
>)
    ensures
        result_view(result) == eval(term@, env@, depth as nat).result,
        texts(final(output)@) == texts(old(output)@) + eval(term@, env@, depth as nat).output,
    decreases depth, 0nat,
{
    assert(texts(output@) + Seq::<Seq<char>>::empty() =~= texts(output@));
    if depth == 0 {
        return Err(Fault::DepthExceeded);
    }
    let inner = depth - 1;
    match term {
        Term::Str { value, .. } => Ok(Value::String(value.clone())),
        Term::Bool { value, .. } => Ok(Value::Boolean(*value)),
        Term::Int { value, .. } => Ok(Value::Number(*value)),
        Term::If { condition, then, otherwise, .. } => {
            let ghost tested = eval((**condition)@, env@, inner as nat);
            let condition_value = match interpret(&**condition, env, inner, output) {
                Ok(value) => value,
                Err(fault) => {
                    return Err(fault);
                },
            };
            let boolean = match assert_bool(&condition_value) {
                Ok(b) => b,
                Err(fault) => {
                    return Err(fault);
                },
            };
            let ghost chosen = eval(
                if boolean {
                    (**then)@
                } else {
                    (**otherwise)@
                },
                env@,
                inner as nat,
            );
            let result = if boolean {
                interpret(&**then, env, inner, output)
            } else {
                interpret(&**otherwise, env, inner, output)
            };
            assert(texts(output@) =~= texts(old(output)@) + (tested.output + chosen.output));
            result
        },
        Term::Tuple { first, second, .. } => {
            let ghost left = eval((**first)@, env@, inner as nat);
            let ghost right = eval((**second)@, env@, inner as nat);
            let fst = match interpret(&**first, env, inner, output) {
                Ok(value) => value,
                Err(fault) => {
                    return Err(fault);
                },
            };
            let snd = interpret(&**second, env, inner, output);
            assert(texts(output@) =~= texts(old(output)@) + (left.output + right.output));
            match snd {
                Ok(value) => Ok(Value::Tuple(Box::new(fst), Box::new(value))),
                Err(fault) => Err(fault),
            }
        },
        Term::First { value, .. } => {
            let pair = match interpret(&**value, env, inner, output) {
                Ok(value) => value,
                Err(fault) => {
                    return Err(fault);
                },
            };
            match assert_tuple(&pair) {
                Ok((first, _)) => Ok(first.clone_value()),
                Err(fault) => Err(fault),
            }
        },
        Term::Second { value, .. } => {
            let pair = match interpret(&**value, env, inner, output) {
                Ok(value) => value,
                Err(fault) => {
                    return Err(fault);
                },
            };
            match assert_tuple(&pair) {
                Ok((_, second)) => Ok(second.clone_value()),
                Err(fault) => Err(fault),
            }
        },
        Term::Binary { lhs, op, rhs, .. } => {
            let ghost first = eval((**lhs)@, env@, inner as nat);
            let ghost second = eval((**rhs)@, env@, inner as nat);
            let left = match interpret(&**lhs, env, inner, output) {
                Ok(value) => value,
                Err(fault) => {
                    return Err(fault);
                },
            };
            let right = interpret(&**rhs, env, inner, output);
            assert(texts(output@) =~= texts(old(output)@) + (first.output + second.output));
            match right {
                Ok(value) => interpret_binary(&left, &value, op),
                Err(fault) => Err(fault),
            }
        },
        Term::Print { value, .. } => {
            let ghost shown = eval((**value)@, env@, inner as nat);
            let value = match interpret(&**value, env, inner, output) {
                Ok(value) => value,
                Err(fault) => {
                    return Err(fault);
                },
            };
            let value_str = show_value(&value);
            let ghost printed = texts(output@);
            let ghost line = value_str@;
            output.push(value_str);
            assert(texts(output@) =~= printed.push(line));
            assert(texts(output@) =~= texts(old(output)@) + shown.output.push(line));
            Ok(value)
        },
        Term::Var { text, .. } => env.lookup(text),
        Term::Let { name, value, next, .. } => {
            let ghost bound = eval((**value)@, env@, inner as nat);
            let value = match interpret(&**value, env, inner, output) {
                Ok(value) => value,
                Err(fault) => {
                    return Err(fault);
                },
            };
            let ghost body = eval((**next)@, env@.insert(name.text@, value@), inner as nat);
            let new_env = env.extend(name.text.clone(), value);
            let result = interpret(&**next, &new_env, inner, output);
            assert(texts(output@) =~= texts(old(output)@) + (bound.output + body.output));
            result
        },
        Term::Call { callee, arguments, .. } => {
            let ghost views = term@->Call_1;
            let ghost target = eval((**callee)@, env@, inner as nat);
            let func = match interpret(&**callee, env, inner, output) {
                Ok(value) => value,
                Err(fault) => {
                    return Err(fault);
                },
            };
            let closure = match assert_closure(&func) {
                Ok(closure) => closure,
                Err(fault) => {
                    return Err(fault);
                },
            };
            if closure.parameters.len() != arguments.len() {
                return Err(Fault::ArityMismatch(closure.parameters.len(), arguments.len()));
            }
            let ghost passed = eval_arguments(views, views.len(), env@, inner as nat);
            let function_env = match bind_arguments(
                closure,
                arguments,
                Ghost(views),
                env,
                inner,
                output,
            ) {
                Ok(extended) => extended,
                Err(fault) => {
                    return Err(fault);
                },
            };
            let ghost body = eval((*closure.body)@, function_env@, inner as nat);
            let result = interpret(&*closure.body, &function_env, inner, output);
            assert(texts(output@) =~= texts(old(output)@) + ((target.output + passed.output)
                + body.output));
            result
        },
        Term::Function { parameters, value, .. } => Ok(
            Value::Closure(
                Closure {
                    body: share(value),
                    parameters: parameter_texts(parameters),
                    env: env.clone_env(),
                },
            ),
        ),
    }
}

/// The result of running a program, and the lines that it printed.
#[derive(Debug, PartialEq)]
pub struct Evaluation {
    pub result: Result<Value, Fault>,
    pub output: Vec<String>,
}

/// Runs a program: evaluates its root term in the empty environment, nesting at most
/// [`DEPTH_LIMIT`] deep.
pub fn interpret_file(file: &File) -> (evaluation: Evaluation)
    ensures
        result_view(evaluation.result) == eval(
            (*file.expression)@,
            Map::empty(),
            DEPTH_LIMIT as nat,
        ).result,
        texts(evaluation.output@) == eval(
            (*file.expression)@,
            Map::empty(),
            DEPTH_LIMIT as nat,
        ).output,
{
    let env = Env::new();
    let mut output: Vec<String> = Vec::new();
    let result = interpret(&*file.expression, &env, DEPTH_LIMIT, &mut output);
    assert(texts(output@) =~= eval((*file.expression)@, Map::empty(), DEPTH_LIMIT as nat).output);
    Evaluation { result, output }
}

} // verus!
