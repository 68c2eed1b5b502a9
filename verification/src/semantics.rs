//! What evaluation means: the result and the printed lines of every term, in every
//! environment, stated over the views of terms and values.

use vstd::prelude::*;
use crate::fault::FaultView;
use crate::number::{
    num_add,
    num_close,
    num_div,
    num_le,
    num_lt,
    num_mul,
    num_rem,
    num_sub,
    NumberView,
};
use crate::types::{BinaryOp, TermView};
use crate::value::{coerced_text, show, ValueView};

verus! {

/// What an environment is: the value that each bound name stands for.
pub type EnvView = Map<Seq<char>, ValueView>;

/// What one evaluation produced: a value or the fault that stopped it, and the lines that it
/// printed up to there, in order.
pub struct Outcome {
    pub result: Result<ValueView, FaultView>,
    pub output: Seq<Seq<char>>,
}

/// What evaluating the leading arguments of a call produced: their values in order, or the
/// fault of the first argument that has one, and the lines printed up to there.
pub struct ArgumentsOutcome {
    pub result: Result<Seq<ValueView>, FaultView>,
    pub output: Seq<Seq<char>>,
}

/// The outcome that printed nothing.
pub open spec fn silent(result: Result<ValueView, FaultView>) -> Outcome {
    Outcome { result, output: Seq::empty() }
}

/// An outcome that comes after lines already printed.
pub open spec fn after(earlier: Seq<Seq<char>>, outcome: Outcome) -> Outcome {
    Outcome { result: outcome.result, output: earlier + outcome.output }
}

/// The fault for a value that is not of the kind `expected`.
pub open spec fn mismatch(expected: &str) -> FaultView {
    FaultView::TypeMismatch(expected@)
}

/// Whether two values are equal, for the operators `Eq` and `Neq`. Only two numbers, two
/// strings or two booleans can be compared; numbers are equal when they are close.
pub open spec fn values_equal(left: ValueView, right: ValueView) -> Result<bool, FaultView> {
    match (left, right) {
        (ValueView::Number(l), ValueView::Number(r)) => Ok(num_close(l, r)),
        (ValueView::String(l), ValueView::String(r)) => Ok(l == r),
        (ValueView::Boolean(l), ValueView::Boolean(r)) => Ok(l == r),
        _ => Err(mismatch("number or string or boolean")),
    }
}

/// What an operator other than `Add`, `Eq` and `Neq` makes of two numbers.
pub open spec fn apply_numeric(op: BinaryOp, left: NumberView, right: NumberView) -> Result<
    ValueView,
    FaultView,
> {
    match op {
        BinaryOp::Sub => Ok(ValueView::Number(num_sub(left, right))),
        BinaryOp::Mul => Ok(ValueView::Number(num_mul(left, right))),
        BinaryOp::Div => Ok(ValueView::Number(num_div(left, right))),
        BinaryOp::Rem => Ok(ValueView::Number(num_rem(left, right))),
        BinaryOp::Lt => Ok(ValueView::Boolean(num_lt(left, right))),
        BinaryOp::Gt => Ok(ValueView::Boolean(num_lt(right, left))),
        BinaryOp::Lte => Ok(ValueView::Boolean(num_le(left, right))),
        _ => Ok(ValueView::Boolean(num_le(right, left))),
    }
}

/// What a binary operator makes of its two operands.
///
/// `Add` adds two numbers and otherwise concatenates the texts of numbers and strings. `Eq`
/// and `Neq` compare two values of one comparable kind. `And` and `Or` take two booleans. The
/// other operators take two numbers.
pub open spec fn apply_binary(op: BinaryOp, left: ValueView, right: ValueView) -> Result<
    ValueView,
    FaultView,
> {
    match op {
        BinaryOp::Add => match (left, right) {
            (ValueView::Number(l), ValueView::Number(r)) => Ok(ValueView::Number(num_add(l, r))),
            _ => match (coerced_text(left), coerced_text(right)) {
                (Some(l), Some(r)) => Ok(ValueView::String(l + r)),
                _ => Err(mismatch("string or number")),
            },
        },
        BinaryOp::Eq => match values_equal(left, right) {
            Ok(equal) => Ok(ValueView::Boolean(equal)),
            Err(fault) => Err(fault),
        },
        BinaryOp::Neq => match values_equal(left, right) {
            Ok(equal) => Ok(ValueView::Boolean(!equal)),
            Err(fault) => Err(fault),
        },
        BinaryOp::And => match (left, right) {
            (ValueView::Boolean(l), ValueView::Boolean(r)) => Ok(ValueView::Boolean(l && r)),
            _ => Err(mismatch("boolean")),
        },
        BinaryOp::Or => match (left, right) {
            (ValueView::Boolean(l), ValueView::Boolean(r)) => Ok(ValueView::Boolean(l || r)),
            _ => Err(mismatch("boolean")),
        },
        _ => match (left, right) {
            (ValueView::Number(l), ValueView::Number(r)) => apply_numeric(op, l, r),
            _ => Err(mismatch("number")),
        },
    }
}

/// The environment with each of `names` bound to the value at the same place of `values`, in
/// order: where a name occurs twice, the later binding is the one that is seen.
pub open spec fn bind_all(env: EnvView, names: Seq<Seq<char>>, values: Seq<ValueView>) -> EnvView
    recommends
        names.len() == values.len(),
    decreases names.len(),
{
    if names.len() == 0 || values.len() == 0 {
        env
    } else {
        bind_all(env, names.drop_last(), values.drop_last()).insert(names.last(), values.last())
    }
}

/// The outcome of evaluating `term` in `env`, where the evaluation may nest `depth` deep.
///
/// Each term takes one level for itself and leaves the rest to its children; the body of a
/// called closure counts as a child of the call. With no level left the outcome is the fault
/// `DepthExceeded`. The first fault ends the evaluation: what was printed before it stays
/// printed, and nothing after it is evaluated.
pub open spec fn eval(term: TermView, env: EnvView, depth: nat) -> Outcome
    decreases depth, 0nat,
{
    if depth == 0 {
        silent(Err(FaultView::DepthExceeded))
    } else {
        let inner = (depth - 1) as nat;
        match term {
            TermView::Int(n) => silent(Ok(ValueView::Number(n))),
            TermView::Str(s) => silent(Ok(ValueView::String(s))),
            TermView::Bool(b) => silent(Ok(ValueView::Boolean(b))),
            TermView::If(condition, then, otherwise) => {
                let tested = eval(*condition, env, inner);
                match tested.result {
                    Err(_) => tested,
                    Ok(ValueView::Boolean(b)) => after(
                        tested.output,
                        eval(
                            if b {
                                *then
                            } else {
                                *otherwise
                            },
                            env,
                            inner,
                        ),
                    ),
                    Ok(_) => Outcome { result: Err(mismatch("boolean")), output: tested.output },
                }
            },
            TermView::Let(name, value, next) => {
                let bound = eval(*value, env, inner);
                match bound.result {
                    Err(_) => bound,
                    Ok(v) => after(bound.output, eval(*next, env.insert(name, v), inner)),
                }
            },
            TermView::Binary(lhs, op, rhs) => {
                let left = eval(*lhs, env, inner);
                match left.result {
                    Err(_) => left,
                    Ok(l) => {
                        let right = eval(*rhs, env, inner);
                        match right.result {
                            Err(_) => after(left.output, right),
                            Ok(r) => Outcome {
                                result: apply_binary(op, l, r),
                                output: left.output + right.output,
                            },
                        }
                    },
                }
            },
            TermView::Function(parameters, body) => silent(
                Ok(ValueView::Closure { parameters, body: *body, env }),
            ),
            TermView::Call(callee, arguments) => {
                let target = eval(*callee, env, inner);
                match target.result {
                    Err(_) => target,
                    Ok(ValueView::Closure { parameters, body, env: captured }) => {
                        if parameters.len() != arguments.len() {
                            Outcome {
                                result: Err(
                                    FaultView::ArityMismatch(parameters.len(), arguments.len()),
                                ),
                                output: target.output,
                            }
                        } else {
                            let passed = eval_arguments(arguments, arguments.len(), env, inner);
                            match passed.result {
                                Err(fault) => Outcome {
                                    result: Err(fault),
                                    output: target.output + passed.output,
                                },
                                Ok(values) => after(
                                    target.output + passed.output,
                                    eval(body, bind_all(captured, parameters, values), inner),
                                ),
                            }
                        }
                    },
                    Ok(_) => Outcome { result: Err(mismatch("closure")), output: target.output },
                }
            },
            TermView::Tuple(first, second) => {
                let left = eval(*first, env, inner);
                match left.result {
                    Err(_) => left,
                    Ok(l) => {
                        let right = eval(*second, env, inner);
                        match right.result {
                            Err(_) => after(left.output, right),
                            Ok(r) => Outcome {
                                result: Ok(ValueView::Tuple(Box::new(l), Box::new(r))),
                                output: left.output + right.output,
                            },
                        }
                    },
                }
            },
            TermView::First(value) => {
                let pair = eval(*value, env, inner);
                match pair.result {
                    Err(_) => pair,
                    Ok(ValueView::Tuple(first, _)) => Outcome {
                        result: Ok(*first),
                        output: pair.output,
                    },
                    Ok(_) => Outcome { result: Err(mismatch("tuple")), output: pair.output },
                }
            },
            TermView::Second(value) => {
                let pair = eval(*value, env, inner);
                match pair.result {
                    Err(_) => pair,
                    Ok(ValueView::Tuple(_, second)) => Outcome {
                        result: Ok(*second),
                        output: pair.output,
                    },
                    Ok(_) => Outcome { result: Err(mismatch("tuple")), output: pair.output },
                }
            },
            TermView::Var(name) => silent(
                if env.contains_key(name) {
                    Ok(env[name])
                } else {
                    Err(FaultView::UndefinedVariable(name))
                },
            ),
            TermView::Print(value) => {
                let shown = eval(*value, env, inner);
                match shown.result {
                    Err(_) => shown,
                    Ok(v) => Outcome { result: Ok(v), output: shown.output.push(show(v)) },
                }
            },
        }
    }
}

/// The outcome of evaluating the first `count` of `arguments` in `env`, one after the other,
/// each nesting at most `depth` deep.
pub open spec fn eval_arguments(
    arguments: Seq<TermView>,
    count: nat,
    env: EnvView,
    depth: nat,
) -> ArgumentsOutcome
    recommends
        count <= arguments.len(),
    decreases depth, count,
{
    if count == 0 {
        ArgumentsOutcome { result: Ok(Seq::empty()), output: Seq::empty() }
    } else {
        let earlier = eval_arguments(arguments, (count - 1) as nat, env, depth);
        match earlier.result {
            Err(_) => earlier,
            Ok(values) => {
                let next = eval(arguments[count - 1], env, depth);
                match next.result {
                    Err(fault) => ArgumentsOutcome {
                        result: Err(fault),
                        output: earlier.output + next.output,
                    },
                    Ok(v) => ArgumentsOutcome {
                        result: Ok(values.push(v)),
                        output: earlier.output + next.output,
                    },
                }
            },
        }
    }
}

/// The first argument that faults ends the evaluation of the arguments: those after it add
/// nothing to the outcome.
pub proof fn lemma_arguments_stop_at_fault(
    arguments: Seq<TermView>,
    count: nat,
    more: nat,
    env: EnvView,
    depth: nat,
)
    requires
        count <= more,
        eval_arguments(arguments, count, env, depth).result is Err,
    ensures
        eval_arguments(arguments, more, env, depth) == eval_arguments(arguments, count, env, depth),
    decreases more,
{
    if more > count {
        lemma_arguments_stop_at_fault(arguments, count, (more - 1) as nat, env, depth);
    }
}

} // verus!
