//! What holds of every evaluation.
//!
//! Each law is stated over [`eval`], the meaning that [`crate::interpreter::interpret`] is
//! proved to compute. A term is given one level of depth more than its children need, so a law
//! about a term at depth `depth + 1` speaks of its children at depth `depth`.

use vstd::prelude::*;
use vstd::arithmetic::div_mod::{lemma_fundamental_div_mod, lemma_fundamental_div_mod_converse};
use vstd::arithmetic::power2::{
    lemma_pow2_adds,
    lemma_pow2_pos,
    lemma_pow2_strictly_increases,
    lemma_pow2_unfold,
    pow2,
};
use crate::fault::FaultView;
use crate::number::{
    gap_scale,
    leading_power,
    magnitude,
    nearest,
    num_add,
    num_div,
    num_mul,
    num_sub,
    quotient_ceiling,
    quotient_floor,
    NumberView,
    MAX_EXACT,
    OVERFLOW_EXPONENT,
};
use crate::rounding::{lemma_canonical_is_exact, lemma_significand_constants};
use crate::semantics::{
    bind_all,
    eval,
    eval_arguments,
    mismatch,
    silent,
    EnvView,
    Outcome,
};
use crate::types::{BinaryOp, TermView};
use crate::value::{show, ValueView};

verus! {

/// Whether a term is a number, string or boolean literal.
pub open spec fn is_literal(term: TermView) -> bool {
    term is Int || term is Str || term is Bool
}

/// The value that a literal denotes.
pub open spec fn literal_value(term: TermView) -> ValueView
    recommends
        is_literal(term),
{
    match term {
        TermView::Int(n) => ValueView::Number(n),
        TermView::Str(s) => ValueView::String(s),
        TermView::Bool(b) => ValueView::Boolean(b),
        _ => arbitrary(),
    }
}

/// A literal evaluates to the value it denotes, in every environment, and prints nothing.
pub proof fn law_literals(term: TermView, env: EnvView, depth: nat)
    requires
        is_literal(term),
        depth > 0,
    ensures
        eval(term, env, depth) == silent(Ok(literal_value(term))),
{
}

/// The value of a let-binding is evaluated before the name is bound: a binding whose value is
/// its own name, with no outer binding of that name, faults with `UndefinedVariable`, whatever
/// its body is.
pub proof fn law_let_hides_name_from_value(
    name: Seq<char>,
    body: TermView,
    env: EnvView,
    depth: nat,
)
    requires
        !env.contains_key(name),
        depth >= 2,
    ensures
        eval(
            TermView::Let(name, Box::new(TermView::Var(name)), Box::new(body)),
            env,
            depth,
        ) == silent(Err(FaultView::UndefinedVariable(name))),
{
    let inner = (depth - 1) as nat;
    assert(eval(TermView::Var(name), env, inner) == silent(
        Err(FaultView::UndefinedVariable(name)),
    ));
}

/// An inner binding shadows an outer binding of the same name: the name then stands for the
/// inner value, and the environment is the one that the inner binding alone would have made
/// of the starting one, so nothing in that scope can tell that there was an outer binding.
pub proof fn law_shadowing(
    name: Seq<char>,
    outer: TermView,
    inner: TermView,
    env: EnvView,
    depth: nat,
)
    requires
        depth > 0,
        eval(outer, env, depth + 1).result is Ok,
        eval(inner, env.insert(name, eval(outer, env, depth + 1).result->Ok_0), depth).result is Ok,
    ensures
        ({
            let first = eval(outer, env, depth + 1);
            let hidden = first.result->Ok_0;
            let second = eval(inner, env.insert(name, hidden), depth);
            let seen = second.result->Ok_0;
            let nested = TermView::Let(name, Box::new(inner), Box::new(TermView::Var(name)));
            &&& eval(TermView::Let(name, Box::new(outer), Box::new(nested)), env, depth + 2)
                == Outcome { result: Ok(seen), output: first.output + second.output }
            &&& env.insert(name, hidden).insert(name, seen) == env.insert(name, seen)
        }),
{
    let first = eval(outer, env, depth + 1);
    let hidden = first.result->Ok_0;
    let scope = env.insert(name, hidden);
    let second = eval(inner, scope, depth);
    let seen = second.result->Ok_0;
    let nested = TermView::Let(name, Box::new(inner), Box::new(TermView::Var(name)));
    assert(scope.insert(name, seen) =~= env.insert(name, seen));
    assert(eval(TermView::Var(name), scope.insert(name, seen), depth) == silent(Ok(seen)));
    assert(eval(nested, scope, depth + 1) == Outcome {
        result: Ok(seen),
        output: second.output + Seq::<Seq<char>>::empty(),
    });
    assert(second.output + Seq::<Seq<char>>::empty() =~= second.output);
    assert(eval(TermView::Let(name, Box::new(outer), Box::new(nested)), env, depth + 2).output
        =~= first.output + second.output);
}

/// A call evaluates the body of the closure in the environment that the closure captured when
/// it was made, extended with the parameters, and not in the environment of the caller: that
/// one only serves to evaluate the callee and the arguments.
pub proof fn law_call_uses_captured_environment(
    callee: TermView,
    arguments: Seq<TermView>,
    env: EnvView,
    depth: nat,
)
    requires
        eval(callee, env, depth).result is Ok,
        eval(callee, env, depth).result->Ok_0 is Closure,
        eval(callee, env, depth).result->Ok_0->parameters.len() == arguments.len(),
        eval_arguments(arguments, arguments.len(), env, depth).result is Ok,
    ensures
        ({
            let target = eval(callee, env, depth);
            let closure = target.result->Ok_0;
            let passed = eval_arguments(arguments, arguments.len(), env, depth);
            let body = eval(
                closure->body,
                bind_all(closure->env, closure->parameters, passed.result->Ok_0),
                depth,
            );
            eval(TermView::Call(Box::new(callee), arguments), env, depth + 1) == Outcome {
                result: body.result,
                output: target.output + passed.output + body.output,
            }
        }),
{
}

/// A call with another number of arguments than the closure has parameters faults with
/// `ArityMismatch`, holding the number of parameters and the number of arguments, before any
/// argument is evaluated.
pub proof fn law_arity_mismatch(
    callee: TermView,
    arguments: Seq<TermView>,
    env: EnvView,
    depth: nat,
)
    requires
        eval(callee, env, depth).result is Ok,
        eval(callee, env, depth).result->Ok_0 is Closure,
        eval(callee, env, depth).result->Ok_0->parameters.len() != arguments.len(),
    ensures
        eval(TermView::Call(Box::new(callee), arguments), env, depth + 1) == (Outcome {
            result: Err(
                FaultView::ArityMismatch(
                    eval(callee, env, depth).result->Ok_0->parameters.len(),
                    arguments.len(),
                ),
            ),
            output: eval(callee, env, depth).output,
        }),
{
}

/// The first projection of a tuple is the value of its first term and the second projection
/// the value of its second term, whatever values these are.
pub proof fn law_tuple_round_trip(first: TermView, second: TermView, env: EnvView, depth: nat)
    requires
        eval(first, env, depth).result is Ok,
        eval(second, env, depth).result is Ok,
    ensures
        ({
            let left = eval(first, env, depth);
            let right = eval(second, env, depth);
            let tuple = TermView::Tuple(Box::new(first), Box::new(second));
            &&& eval(TermView::First(Box::new(tuple)), env, depth + 2) == Outcome {
                result: left.result,
                output: left.output + right.output,
            }
            &&& eval(TermView::Second(Box::new(tuple)), env, depth + 2) == Outcome {
                result: right.result,
                output: left.output + right.output,
            }
        }),
{
    let tuple = TermView::Tuple(Box::new(first), Box::new(second));
    let left = eval(first, env, depth);
    let right = eval(second, env, depth);
    assert(eval(tuple, env, depth + 1) == Outcome {
        result: Ok(ValueView::Tuple(Box::new(left.result->Ok_0), Box::new(right.result->Ok_0))),
        output: left.output + right.output,
    });
}

/// A projection of a value that is no tuple faults with a `TypeMismatch` that asks for a tuple.
pub proof fn law_projection_needs_tuple(subject: TermView, env: EnvView, depth: nat)
    requires
        eval(subject, env, depth).result is Ok,
        !(eval(subject, env, depth).result->Ok_0 is Tuple),
    ensures
        eval(TermView::First(Box::new(subject)), env, depth + 1) == (Outcome {
            result: Err(mismatch("tuple")),
            output: eval(subject, env, depth).output,
        }),
        eval(TermView::Second(Box::new(subject)), env, depth + 1) == (Outcome {
            result: Err(mismatch("tuple")),
            output: eval(subject, env, depth).output,
        }),
{
}

/// Printing is transparent: a print term has the result of the term it prints. What it adds
/// is one line of output, the text of the value, after the lines of that term.
pub proof fn law_print_is_transparent(term: TermView, env: EnvView, depth: nat)
    ensures
        ({
            let plain = eval(term, env, depth);
            let printed = eval(TermView::Print(Box::new(term)), env, depth + 1);
            &&& printed.result == plain.result
            &&& printed.output == match plain.result {
                Ok(value) => plain.output.push(show(value)),
                Err(_) => plain.output,
            }
        }),
{
}

/// Both operands of a binary operation are evaluated, the left one first, whatever the
/// operator and whatever the left value: `And` and `Or` do not stop at a left operand that
/// alone decides the result. So the lines that the right operand prints are printed, and a
/// fault of the right operand is the fault of the operation.
pub proof fn law_both_operands_evaluated(
    lhs: TermView,
    op: BinaryOp,
    rhs: TermView,
    env: EnvView,
    depth: nat,
)
    requires
        eval(lhs, env, depth).result is Ok,
    ensures
        ({
            let left = eval(lhs, env, depth);
            let right = eval(rhs, env, depth);
            let both = eval(TermView::Binary(Box::new(lhs), op, Box::new(rhs)), env, depth + 1);
            &&& both.output == left.output + right.output
            &&& right.result is Err ==> both.result == right.result
        }),
{
}

/// Whether an evaluation ended because it nested deeper than it was allowed to.
pub open spec fn ran_out(result: Result<ValueView, FaultView>) -> bool {
    result == Err::<ValueView, FaultView>(FaultView::DepthExceeded)
}

/// The depth is a limit and nothing else: an evaluation that did not run out of depth has
/// the same result and the same output at every greater depth.
pub proof fn law_depth_is_only_a_limit(term: TermView, env: EnvView, depth: nat, deeper: nat)
    requires
        depth <= deeper,
        !ran_out(eval(term, env, depth).result),
    ensures
        eval(term, env, deeper) == eval(term, env, depth),
    decreases depth, 0nat,
{
    let inner = (depth - 1) as nat;
    let more = (deeper - 1) as nat;
    match term {
        TermView::Int(_) | TermView::Str(_) | TermView::Bool(_) => {},
        TermView::Function(_, _) | TermView::Var(_) => {},
        TermView::If(condition, then, otherwise) => {
            law_depth_is_only_a_limit(*condition, env, inner, more);
            match eval(*condition, env, inner).result {
                Ok(ValueView::Boolean(b)) => {
                    if b {
                        law_depth_is_only_a_limit(*then, env, inner, more);
                    } else {
                        law_depth_is_only_a_limit(*otherwise, env, inner, more);
                    }
                },
                _ => {},
            }
        },
        TermView::Let(name, value, next) => {
            law_depth_is_only_a_limit(*value, env, inner, more);
            match eval(*value, env, inner).result {
                Ok(v) => {
                    law_depth_is_only_a_limit(*next, env.insert(name, v), inner, more);
                },
                Err(_) => {},
            }
        },
        TermView::Binary(lhs, _, rhs) => {
            law_depth_is_only_a_limit(*lhs, env, inner, more);
            if eval(*lhs, env, inner).result is Ok {
                law_depth_is_only_a_limit(*rhs, env, inner, more);
            }
        },
        TermView::Tuple(first, second) => {
            law_depth_is_only_a_limit(*first, env, inner, more);
            if eval(*first, env, inner).result is Ok {
                law_depth_is_only_a_limit(*second, env, inner, more);
            }
        },
        TermView::First(value) | TermView::Second(value) | TermView::Print(value) => {
            law_depth_is_only_a_limit(*value, env, inner, more);
        },
        TermView::Call(callee, arguments) => {
            law_depth_is_only_a_limit(*callee, env, inner, more);
            match eval(*callee, env, inner).result {
                Ok(ValueView::Closure { parameters, body, env: captured }) => {
                    if parameters.len() == arguments.len() {
                        lemma_arguments_depth(arguments, arguments.len(), env, inner, more);
                        match eval_arguments(arguments, arguments.len(), env, inner).result {
                            Ok(values) => {
                                law_depth_is_only_a_limit(
                                    body,
                                    bind_all(captured, parameters, values),
                                    inner,
                                    more,
                                );
                            },
                            Err(_) => {},
                        }
                    }
                },
                _ => {},
            }
        },
    }
}

/// The arguments of a call that did not run out of depth have the same outcome at every
/// greater depth.
proof fn lemma_arguments_depth(
    arguments: Seq<TermView>,
    count: nat,
    env: EnvView,
    depth: nat,
    deeper: nat,
)
    requires
        depth <= deeper,
        eval_arguments(arguments, count, env, depth).result != Err::<Seq<ValueView>, FaultView>(
            FaultView::DepthExceeded,
        ),
    ensures
        eval_arguments(arguments, count, env, deeper) == eval_arguments(
            arguments,
            count,
            env,
            depth,
        ),
    decreases depth, count,
{
    if count > 0 {
        lemma_arguments_depth(arguments, (count - 1) as nat, env, depth, deeper);
        if eval_arguments(arguments, (count - 1) as nat, env, depth).result is Ok {
            law_depth_is_only_a_limit(arguments[count - 1], env, depth, deeper);
        }
    }
}

/// An integer of magnitude up to two to the power 53 is a double: the double nearest to it is
/// the integer itself.
pub proof fn law_small_integers_are_doubles(n: int)
    requires
        magnitude(n) <= MAX_EXACT,
    ensures
        nearest(n) == NumberView::Int(n),
{
    lemma_significand_constants();
    lemma_pow2_strictly_increases(53, OVERFLOW_EXPONENT as nat);
    let size = magnitude(n);
    if size < MAX_EXACT {
        lemma_canonical_is_exact(size, 0);
        assert(size * pow2(0) == size) by (nonlinear_arith)
            requires
                pow2(0) == 1,
        ;
    } else {
        lemma_canonical_is_exact(pow2(52), 1);
        assert(pow2(52) * pow2(1) == MAX_EXACT) by (nonlinear_arith)
            requires
                pow2(1) == 2,
                2 * pow2(52) == MAX_EXACT,
        ;
    }
}

/// Sums, differences and products of integers are exact as long as they stay within two to
/// the power 53.
pub proof fn law_small_arithmetic_is_exact(a: int, b: int)
    requires
        magnitude(a) <= MAX_EXACT,
        magnitude(b) <= MAX_EXACT,
    ensures
        magnitude(a + b) <= MAX_EXACT ==> num_add(NumberView::Int(a), NumberView::Int(b))
            == NumberView::Int(a + b),
        magnitude(a - b) <= MAX_EXACT ==> num_sub(NumberView::Int(a), NumberView::Int(b))
            == NumberView::Int(a - b),
        a != 0 && b != 0 && magnitude(a * b) <= MAX_EXACT ==> num_mul(
            NumberView::Int(a),
            NumberView::Int(b),
        ) == NumberView::Int(a * b),
{
    if magnitude(a + b) <= MAX_EXACT {
        law_small_integers_are_doubles(a + b);
    }
    if magnitude(a - b) <= MAX_EXACT {
        law_small_integers_are_doubles(a - b);
    }
    if a != 0 && b != 0 && magnitude(a * b) <= MAX_EXACT {
        law_small_integers_are_doubles(a * b);
    }
}

/// The leading power of a number is a power of two that the number does not reach twice.
proof fn lemma_leading_power(n: nat) -> (k: nat)
    requires
        n >= 1,
    ensures
        leading_power(n) == pow2(k),
        pow2(k) <= n < 2 * pow2(k),
    decreases n,
{
    lemma_significand_constants();
    if n < 2 {
        0
    } else {
        let below = lemma_leading_power(n / 2);
        lemma_pow2_unfold(below + 1);
        below + 1
    }
}

/// Within two to the power 53 the quotient of two integers is never so near to the next
/// integer that rounding it to a double would reach it.
proof fn lemma_small_quotient(a: nat, b: nat)
    requires
        0 < a <= MAX_EXACT,
        0 < b <= MAX_EXACT,
    ensures
        quotient_floor(a, b) == a / b,
        quotient_ceiling(a, b) == if a % b == 0 {
            a / b
        } else {
            a / b + 1
        },
{
    lemma_significand_constants();
    let whole = a / b;
    let rest = a % b;
    lemma_fundamental_div_mod(a as int, b as int);
    vstd::arithmetic::div_mod::lemma_mod_pos_bound(a as int, b as int);
    vstd::arithmetic::div_mod::lemma_div_pos_is_pos(a as int, b as int);
    assert(whole * b <= a && (rest > 0 && b >= 2 ==> whole * 2 < a)) by (nonlinear_arith)
        requires
            a == b * whole + rest,
            rest >= 0,
            whole >= 0,
    ;
    if whole >= MAX_EXACT {
        assert(b == 1 && whole == MAX_EXACT) by (nonlinear_arith)
            requires
                whole * b <= a,
                a <= MAX_EXACT,
                whole >= MAX_EXACT,
                b >= 1,
        ;
        assert(rest == 0);
        lemma_canonical_is_exact(pow2(52), 1);
        assert(pow2(52) * pow2(1) == MAX_EXACT) by (nonlinear_arith)
            requires
                pow2(1) == 2,
                2 * pow2(52) == MAX_EXACT,
        ;
    } else if rest > 0 {
        if whole == 0 {
            assert((b - rest) * gap_scale(0) > b) by (nonlinear_arith)
                requires
                    b - rest >= 1,
                    gap_scale(0) == 2 * MAX_EXACT,
                    b <= MAX_EXACT,
            ;
        } else {
            let k = lemma_leading_power(whole);
            let lead = pow2(k);
            assert(k <= 52) by {
                if k > 52 {
                    lemma_pow2_strictly_increases(52, k);
                }
            }
            lemma_pow2_adds(k, (53 - k) as nat);
            lemma_pow2_pos((53 - k) as nat);
            let gap = pow2((53 - k) as nat);
            assert(lead * gap == MAX_EXACT);
            assert(gap * lead == lead * gap) by (nonlinear_arith);
            lemma_fundamental_div_mod_converse(MAX_EXACT as int, lead as int, gap as int, 0);
            assert(gap_scale(whole) == gap);
            assert(gap > b) by (nonlinear_arith)
                requires
                    lead * gap == MAX_EXACT,
                    lead <= whole,
                    a == b * whole + rest,
                    rest >= 1,
                    a <= MAX_EXACT,
                    b >= 1,
                    gap >= 1,
                    lead >= 1,
            ;
            assert((b - rest) * gap > b && rest * gap > b) by (nonlinear_arith)
                requires
                    gap > b,
                    b - rest >= 1,
                    rest >= 1,
                    b >= 1,
            ;
            if whole >= MAX_EXACT / 2 {
                assert(false) by (nonlinear_arith)
                    requires
                        whole >= 4503599627370496,
                        a == b * whole + rest,
                        1 <= rest < b,
                        a <= 9007199254740992,
                ;
            }
        }
    }
}

/// Division of integers within two to the power 53 rounds the exact quotient down, toward
/// negative infinity and not toward zero.
pub proof fn law_small_division_rounds_down(a: int, b: int)
    requires
        0 < magnitude(a) <= MAX_EXACT,
        0 < magnitude(b) <= MAX_EXACT,
    ensures
        num_div(NumberView::Int(a), NumberView::Int(b)) == NumberView::Int(
            if b > 0 {
                a / b
            } else {
                (-a) / (-b)
            },
        ),
{
    lemma_significand_constants();
    lemma_pow2_strictly_increases(53, OVERFLOW_EXPONENT as nat);
    let x = magnitude(a);
    let y = magnitude(b);
    lemma_small_quotient(x, y);
    lemma_fundamental_div_mod(x as int, y as int);
    vstd::arithmetic::div_mod::lemma_mod_pos_bound(x as int, y as int);
    vstd::arithmetic::div_mod::lemma_div_pos_is_pos(x as int, y as int);
    let whole = x / y;
    let rest = x % y;
    assert(whole <= x) by (nonlinear_arith)
        requires
            x == y * whole + rest,
            rest >= 0,
            y >= 1,
            whole >= 0,
    ;
    if (a < 0) != (b < 0) {
        // the dividend of the floor division is -x, its divisor y
        if rest == 0 {
            assert(-(x as int) == (-(whole as int)) * y + 0) by (nonlinear_arith)
                requires
                    x == y * whole + rest,
                    rest == 0,
            ;
            lemma_fundamental_div_mod_converse(-(x as int), y as int, -(whole as int), 0);
        } else {
            assert(-(x as int) == (-(whole as int) - 1) * y + (y - rest)) by (nonlinear_arith)
                requires
                    x == y * whole + rest,
            ;
            lemma_fundamental_div_mod_converse(
                -(x as int),
                y as int,
                -(whole as int) - 1,
                y - rest,
            );
        }
    }
}

} // verus!
