//! The numbers of the language.
//!
//! A number is a double-precision value. Every number that a program can write down is an
//! integer, and the operators of the language keep it so: sums, differences and products of
//! integers are integers, and quotients and remainders are rounded down. This module holds
//! the doubles that arise that way: every double whose value is an integer, negative zero,
//! the two infinities and NaN. Where the exact result of an operation is no double, the
//! result is the double nearest to it, as the arithmetic of doubles has it.

use vstd::prelude::*;
use vstd::arithmetic::div_mod::lemma_fundamental_div_mod_converse;
use vstd::arithmetic::power2::{
    lemma2_to64,
    lemma_pow2_adds,
    lemma_pow2_pos,
    lemma_pow2_strictly_increases,
    lemma_pow2_unfold,
    pow2,
};
use crate::decimal::{decimal, push_digits, shortest, shortest_digits};
use crate::rounding::{
    canonical,
    lemma_canonical_is_exact,
    lemma_round_scales,
    lemma_round_sticky_low,
    lemma_scaled_division,
    lemma_significand_constants,
    round_magnitude,
    round_parts,
    round_sticky,
    MAX_EXPONENT,
    SIGNIFICAND_FLOOR,
    SIGNIFICAND_LIMIT,
};

verus! {

/// The largest magnitude up to which every integer is a double: two to the power 53.
pub const MAX_EXACT: i64 = 9_007_199_254_740_992;

/// The exponent of the power of two at which the doubles end: every finite double is below
/// two to this power.
pub const OVERFLOW_EXPONENT: u32 = 1024;

/// What a [`Number`] stands for. `Int(0)` is positive zero.
pub enum NumberView {
    Nan,
    Infinity,
    NegInfinity,
    NegZero,
    Int(int),
}

impl NumberView {
    /// Neither NaN nor an infinity.
    pub open spec fn is_finite(self) -> bool {
        self is Int || self is NegZero
    }

    /// Zero of either sign.
    pub open spec fn is_zero(self) -> bool {
        self == NumberView::NegZero || self == NumberView::Int(0)
    }

    /// An infinity of either sign.
    pub open spec fn is_infinite(self) -> bool {
        self is Infinity || self is NegInfinity
    }

    /// The sign bit: set for negative numbers, negative zero and negative infinity.
    pub open spec fn is_negative(self) -> bool {
        match self {
            NumberView::Int(n) => n < 0,
            NumberView::NegZero | NumberView::NegInfinity => true,
            _ => false,
        }
    }

    /// The integer that a finite number equals; zero for the others.
    pub open spec fn value(self) -> int {
        match self {
            NumberView::Int(n) => n,
            _ => 0,
        }
    }
}

/// The magnitude of an integer.
pub open spec fn magnitude(n: int) -> nat {
    if n < 0 {
        (-n) as nat
    } else {
        n as nat
    }
}

/// The number of a given sign and magnitude, where the magnitude is that of a double or
/// beyond all of them: an infinity from two to the power 1024 on.
pub open spec fn bounded(negative: bool, size: nat) -> NumberView {
    if size >= pow2(OVERFLOW_EXPONENT as nat) {
        signed_infinity(negative)
    } else if negative {
        NumberView::Int(-(size as int))
    } else {
        NumberView::Int(size as int)
    }
}

/// The double nearest to an exact integer: of two that are equally near, the one with the
/// even significand; an infinity where the nearest would be beyond the largest double.
pub open spec fn nearest(n: int) -> NumberView {
    bounded(n < 0, round_magnitude(magnitude(n)))
}

/// Zero with the given sign bit.
pub open spec fn signed_zero(negative: bool) -> NumberView {
    if negative {
        NumberView::NegZero
    } else {
        NumberView::Int(0)
    }
}

/// Infinity with the given sign bit.
pub open spec fn signed_infinity(negative: bool) -> NumberView {
    if negative {
        NumberView::NegInfinity
    } else {
        NumberView::Infinity
    }
}

/// The same magnitude with the sign bit flipped.
pub open spec fn num_neg(a: NumberView) -> NumberView {
    match a {
        NumberView::Nan => NumberView::Nan,
        NumberView::Infinity => NumberView::NegInfinity,
        NumberView::NegInfinity => NumberView::Infinity,
        NumberView::NegZero => NumberView::Int(0),
        NumberView::Int(n) => if n == 0 {
            NumberView::NegZero
        } else {
            NumberView::Int(-n)
        },
    }
}

/// The sum of two numbers: the double nearest to the exact sum.
///
/// NaN absorbs everything, opposite infinities give NaN, an infinity absorbs what is finite,
/// and a zero sum is negative only when both operands are negative zero.
pub open spec fn num_add(a: NumberView, b: NumberView) -> NumberView {
    if a is Nan || b is Nan {
        NumberView::Nan
    } else if a.is_infinite() && b.is_infinite() {
        if a == b {
            a
        } else {
            NumberView::Nan
        }
    } else if a.is_infinite() {
        a
    } else if b.is_infinite() {
        b
    } else if a is NegZero && b is NegZero {
        NumberView::NegZero
    } else {
        nearest(a.value() + b.value())
    }
}

/// The difference of two numbers: the sum of the first and the negated second.
pub open spec fn num_sub(a: NumberView, b: NumberView) -> NumberView {
    num_add(a, num_neg(b))
}

/// The product of two numbers: the double nearest to the exact product.
///
/// The sign bit of the result is set when exactly one operand has it set; an infinity times
/// a zero is NaN.
pub open spec fn num_mul(a: NumberView, b: NumberView) -> NumberView {
    let negative = a.is_negative() != b.is_negative();
    if a is Nan || b is Nan {
        NumberView::Nan
    } else if a.is_infinite() || b.is_infinite() {
        if a.is_zero() || b.is_zero() {
            NumberView::Nan
        } else {
            signed_infinity(negative)
        }
    } else if a.is_zero() || b.is_zero() {
        signed_zero(negative)
    } else {
        nearest(a.value() * b.value())
    }
}

/// The largest power of two that is not above `n`; one for zero.
pub open spec fn leading_power(n: nat) -> nat
    decreases n,
{
    if n < 2 {
        1
    } else {
        2 * leading_power(n / 2)
    }
}

/// How many times half the distance between neighbouring doubles goes into one, for the
/// doubles between `whole` and `whole + 1`: two to the power 54 below one, two to the power
/// 53 from one to two, and half as many with each doubling of `whole`.
pub open spec fn gap_scale(whole: nat) -> nat {
    if whole == 0 {
        2 * SIGNIFICAND_LIMIT as nat
    } else {
        SIGNIFICAND_LIMIT as nat / leading_power(whole)
    }
}

/// The integer nearest to the quotient of `a` by `b`, which lies between `whole` and
/// `whole + 1`; of two that are equally near, the even one.
pub open spec fn nearest_integer(whole: nat, rest: nat, b: nat) -> nat {
    if 2 * rest > b || (2 * rest == b && whole % 2 == 1) {
        whole + 1
    } else {
        whole
    }
}

/// The double nearest to the quotient of `a` by `b`, rounded down to an integer.
///
/// A quotient of at least two to the power 53 is rounded to a double that is an integer
/// already. Below that the nearest double may have a fraction, which rounding down cuts off:
/// the result is the whole part of the quotient, unless the quotient is so near to the next
/// integer that this integer is the nearest double.
pub open spec fn quotient_floor(a: nat, b: nat) -> nat
    recommends
        b > 0,
{
    let whole = a / b;
    let rest = a % b;
    if whole >= SIGNIFICAND_LIMIT {
        round_sticky(whole, rest != 0)
    } else if rest == 0 {
        whole
    } else if whole >= SIGNIFICAND_FLOOR {
        nearest_integer(whole, rest, b)
    } else if (b - rest) * gap_scale(whole) <= b {
        whole + 1
    } else {
        whole
    }
}

/// The double nearest to the quotient of `a` by `b`, rounded up to an integer: what rounding
/// down gives of the negated quotient, negated.
///
/// The result is the integer above the quotient, unless the quotient is an integer or so
/// near above one that this integer is the nearest double.
pub open spec fn quotient_ceiling(a: nat, b: nat) -> nat
    recommends
        b > 0,
{
    let whole = a / b;
    let rest = a % b;
    if whole >= SIGNIFICAND_LIMIT {
        round_sticky(whole, rest != 0)
    } else if rest == 0 {
        whole
    } else if whole >= SIGNIFICAND_FLOOR {
        nearest_integer(whole, rest, b)
    } else if whole > 0 && rest * gap_scale(whole) <= b {
        whole
    } else {
        whole + 1
    }
}

/// The quotient of two numbers, rounded down to an integer: the double nearest to the exact
/// quotient, and of that the largest integer that is not above it.
///
/// Dividing by a zero is no error: zero by zero is NaN, anything else by zero is an infinity.
/// An infinity by an infinity is NaN, a finite number by an infinity is a zero. The sign bit of
/// a zero or infinite result is set when exactly one operand has it set.
pub open spec fn num_div(a: NumberView, b: NumberView) -> NumberView {
    let negative = a.is_negative() != b.is_negative();
    if a is Nan || b is Nan {
        NumberView::Nan
    } else if a.is_infinite() {
        if b.is_infinite() {
            NumberView::Nan
        } else {
            signed_infinity(negative)
        }
    } else if b.is_infinite() {
        signed_zero(negative)
    } else if b.is_zero() {
        if a.is_zero() {
            NumberView::Nan
        } else {
            signed_infinity(negative)
        }
    } else if a.is_zero() {
        signed_zero(negative)
    } else if negative {
        bounded(true, quotient_ceiling(magnitude(a.value()), magnitude(b.value())))
    } else {
        bounded(false, quotient_floor(magnitude(a.value()), magnitude(b.value())))
    }
}

/// The remainder of two integers that has the sign of the dividend.
pub open spec fn trunc_rem(a: int, b: int) -> int
    recommends
        b != 0,
{
    let m = if b > 0 {
        b
    } else {
        -b
    };
    if a >= 0 {
        a % m
    } else {
        -((-a) % m)
    }
}

/// The remainder of two numbers, with the sign of the dividend.
///
/// The remainder of an infinity, or by a zero, is NaN; the remainder by an infinity is the
/// dividend itself. A zero remainder keeps the sign bit of the dividend.
pub open spec fn num_rem(a: NumberView, b: NumberView) -> NumberView {
    if a is Nan || b is Nan || a.is_infinite() || b.is_zero() {
        NumberView::Nan
    } else if b.is_infinite() {
        a
    } else {
        let r = trunc_rem(a.value(), b.value());
        if r == 0 {
            signed_zero(a.is_negative())
        } else {
            NumberView::Int(r)
        }
    }
}

/// Strictly less; false whenever NaN takes part. The two zeros are equal.
pub open spec fn num_lt(a: NumberView, b: NumberView) -> bool {
    if a is Nan || b is Nan {
        false
    } else if a is Infinity || b is NegInfinity {
        false
    } else if a is NegInfinity || b is Infinity {
        true
    } else {
        a.value() < b.value()
    }
}

/// Less or equal; false whenever NaN takes part.
pub open spec fn num_le(a: NumberView, b: NumberView) -> bool {
    !(a is Nan) && !(b is Nan) && !num_lt(b, a)
}

/// Whether two numbers differ by less than the tolerance of the equality operator.
///
/// The tolerance is far below one, so two finite numbers are that close exactly when they are
/// the same integer (the two zeros are). The difference that involves an infinity or NaN is an
/// infinity or NaN, which is never below the tolerance: such numbers are close to nothing,
/// themselves included.
pub open spec fn num_close(a: NumberView, b: NumberView) -> bool {
    a.is_finite() && b.is_finite() && a.value() == b.value()
}

/// The text of a number: `-0` for negative zero, `inf`, `-inf` and `NaN` for what is not
/// finite, and for an integer its decimal digits with a leading `-` where it is negative.
/// Up to two to the power 53 these are all the digits of the integer. Beyond that, where not
/// every integer is a double, they are the fewest digits that read back as the same double,
/// followed by zeros.
pub open spec fn number_text(a: NumberView) -> Seq<char> {
    match a {
        NumberView::Nan => seq!['N', 'a', 'N'],
        NumberView::Infinity => seq!['i', 'n', 'f'],
        NumberView::NegInfinity => seq!['-', 'i', 'n', 'f'],
        NumberView::NegZero => seq!['-', '0'],
        NumberView::Int(n) => if n < 0 {
            seq!['-'] + decimal(shortest((-n) as nat))
        } else {
            decimal(shortest(n as nat))
        },
    }
}

#[derive(Clone, Copy, Debug, PartialEq, Eq)]
enum Repr {
    Nan,
    Infinity,
    NegInfinity,
    Finite { negative: bool, significand: u64, exponent: u32 },
}

/// A number of the language: a double whose value is an integer, negative zero, an infinity
/// or NaN.
///
/// `==` on this type compares representations: NaN equals NaN and the two zeros differ. What
/// the language's equality operator says is [`Number::close_to`].
#[derive(Clone, Copy, Debug, PartialEq, Eq)]
pub struct Number {
    repr: Repr,
}

/// The sign, significand and exponent of a finite number.
#[derive(Clone, Copy)]
pub struct Parts {
    pub negative: bool,
    pub significand: u64,
    pub exponent: u32,
}

impl Parts {
    /// The magnitude that the parts make.
    pub open spec fn size(self) -> nat {
        (self.significand * pow2(self.exponent as nat)) as nat
    }

    /// The number that the parts make.
    pub open spec fn number(self) -> NumberView {
        if self.significand == 0 {
            signed_zero(self.negative)
        } else if self.negative {
            NumberView::Int(-(self.size() as int))
        } else {
            NumberView::Int(self.size() as int)
        }
    }

    /// Whether the parts are those of a finite double, in the one form that each has.
    pub open spec fn valid(self) -> bool {
        canonical(self.significand as nat, self.exponent as nat) && self.exponent <= MAX_EXPONENT
    }
}

impl View for Number {
    type V = NumberView;

    closed spec fn view(&self) -> NumberView {
        match self.repr {
            Repr::Nan => NumberView::Nan,
            Repr::Infinity => NumberView::Infinity,
            Repr::NegInfinity => NumberView::NegInfinity,
            Repr::Finite { negative, significand, exponent } => (Parts {
                negative,
                significand,
                exponent,
            }).number(),
        }
    }
}

/// Where the finite doubles end: a significand of full width with an exponent beyond the
/// largest makes two to the power 1024 or more, and nothing else does.
proof fn lemma_overflow(significand: nat, exponent: nat)
    requires
        canonical(significand, exponent),
        significand > 0,
    ensures
        (significand * pow2(exponent) >= pow2(OVERFLOW_EXPONENT as nat)) == (exponent
            > MAX_EXPONENT),
        significand * pow2(exponent) > 0,
{
    lemma_significand_constants();
    lemma_pow2_pos(exponent);
    let unit = pow2(exponent);
    if exponent > MAX_EXPONENT {
        lemma_pow2_adds(52, exponent);
        if 52 + exponent > 1024 {
            lemma_pow2_strictly_increases(1024, 52 + exponent);
        }
        assert(significand * unit >= SIGNIFICAND_FLOOR * unit) by (nonlinear_arith)
            requires
                significand >= SIGNIFICAND_FLOOR,
                unit > 0,
        ;
    } else {
        lemma_pow2_adds(53, exponent);
        if 53 + exponent < 1024 {
            lemma_pow2_strictly_increases(53 + exponent, 1024);
        }
        assert(significand * unit < SIGNIFICAND_LIMIT * unit) by (nonlinear_arith)
            requires
                significand < SIGNIFICAND_LIMIT,
                unit > 0,
        ;
    }
    assert(significand * unit > 0) by (nonlinear_arith)
        requires
            significand > 0,
            unit > 0,
    ;
}

/// Of two doubles in their one form, the one with the smaller exponent is the smaller.
proof fn lemma_order(m1: nat, e1: nat, m2: nat, e2: nat)
    requires
        canonical(m1, e1),
        canonical(m2, e2),
        e1 < e2,
    ensures
        m1 * pow2(e1) < m2 * pow2(e2),
{
    lemma_significand_constants();
    lemma_pow2_pos(e1);
    lemma_pow2_adds(e1, 1);
    if e1 + 1 < e2 {
        lemma_pow2_strictly_increases(e1 + 1, e2);
    }
    let u1 = pow2(e1);
    let u2 = pow2(e2);
    assert(m1 * u1 < m2 * u2) by (nonlinear_arith)
        requires
            m1 < SIGNIFICAND_LIMIT,
            m2 >= SIGNIFICAND_FLOOR,
            SIGNIFICAND_LIMIT == 2 * SIGNIFICAND_FLOOR,
            u2 >= 2 * u1,
            u1 > 0,
    ;
}

/// Two to the power `k`.
fn power_of_two(k: u32) -> (power: u128)
    requires
        k <= 120,
    ensures
        power == pow2(k as nat),
        power >= 1,
{
    let mut power: u128 = 1;
    let mut i: u32 = 0;
    proof {
        lemma2_to64();
        lemma_pow2_pos(120);
    }
    while i < k
        invariant
            i <= k <= 120,
            power == pow2(i as nat),
            power >= 1,
            power <= pow2(120),
        decreases k - i,
    {
        proof {
            lemma_pow2_unfold((i + 1) as nat);
            lemma2_to64();
            lemma_pow2_adds(64, 56);
            lemma_pow2_adds(32, 24);
            if i + 1 < 120 {
                lemma_pow2_strictly_increases((i + 1) as nat, 120);
            }
        }
        power = power * 2;
        i = i + 1;
    }
    power
}

impl Parts {
    /// The integer that the parts make.
    pub open spec fn value(self) -> int {
        if self.negative {
            -(self.size() as int)
        } else {
            self.size() as int
        }
    }
}

/// A finite double is the double nearest to its own value.
proof fn lemma_parts_exact(parts: Parts)
    requires
        parts.valid(),
        parts.significand > 0,
    ensures
        nearest(parts.value()) == parts.number(),
        parts.size() > 0,
        round_magnitude(parts.size()) == parts.size(),
        parts.size() < pow2(OVERFLOW_EXPONENT as nat),
{
    lemma_canonical_is_exact(parts.significand as nat, parts.exponent as nat);
    lemma_overflow(parts.significand as nat, parts.exponent as nat);
}

/// The sum or difference of a double and a far smaller number rounds as the double with one
/// bit of either sign beyond its last place.
proof fn lemma_far_sum(m1: nat, e1: nat, small: nat, same: bool)
    requires
        SIGNIFICAND_FLOOR <= m1 < SIGNIFICAND_LIMIT,
        e1 >= 4,
        0 < small < pow2((e1 - 3) as nat),
    ensures
        same ==> round_magnitude(m1 * pow2(e1) + small) == round_magnitude(16 * m1 + 1) * pow2(
            (e1 - 4) as nat,
        ),
        !same ==> m1 * pow2(e1) > small && round_magnitude((m1 * pow2(e1) - small) as nat)
            == round_magnitude((16 * m1 - 1) as nat) * pow2((e1 - 4) as nat),
{
    lemma_significand_constants();
    lemma2_to64();
    let c = (e1 - 3) as nat;
    let p = pow2(c);
    lemma_pow2_pos(c);
    lemma_pow2_adds(3, c);
    lemma_pow2_adds(1, (c - 1) as nat);
    assert(pow2(e1) == 8 * p);
    assert(p == 2 * pow2((e1 - 4) as nat));
    let high: nat = if same {
        8 * m1
    } else {
        (8 * m1 - 1) as nat
    };
    let low: nat = if same {
        small
    } else {
        (p - small) as nat
    };
    let n: nat = if same {
        m1 * pow2(e1) + small
    } else {
        (m1 * pow2(e1) - small) as nat
    };
    assert(m1 * (8 * p) == (8 * m1) * p && (8 * m1 - 1) * p == 8 * m1 * p - p && m1 * (8 * p)
        >= p) by (nonlinear_arith)
        requires
            m1 >= 1,
            p >= 1,
    ;
    assert(n == high * p + low);
    lemma_round_sticky_low(high, c, low, false);
    lemma_round_sticky_low(high, 1, 1, false);
    assert(high * pow2(1) + 1 == 2 * high + 1);
    let half = pow2((e1 - 4) as nat);
    assert(round_sticky(high, true) * 2 * half == round_sticky(high, true) * (2 * half))
        by (nonlinear_arith);
}

impl Number {
    #[verifier::type_invariant]
    spec fn held(self) -> bool {
        match self.repr {
            Repr::Finite { negative, significand, exponent } => (Parts {
                negative,
                significand,
                exponent,
            }).valid(),
            _ => true,
        }
    }

    /// The finite number of valid parts.
    fn finite(parts: Parts) -> (number: Number)
        requires
            parts.valid(),
        ensures
            number@ == parts.number(),
    {
        Number {
            repr: Repr::Finite {
                negative: parts.negative,
                significand: parts.significand,
                exponent: parts.exponent,
            },
        }
    }

    /// The number of a sign and a rounded magnitude: an infinity where the exponent is beyond
    /// the largest.
    fn pack(negative: bool, rounded: (u64, u32)) -> (number: Number)
        requires
            canonical(rounded.0 as nat, rounded.1 as nat),
            rounded.0 > 0,
        ensures
            number@ == bounded(negative, (rounded.0 * pow2(rounded.1 as nat)) as nat),
    {
        proof {
            lemma_overflow(rounded.0 as nat, rounded.1 as nat);
        }
        if rounded.1 > MAX_EXPONENT {
            Number::signed_infinity(negative)
        } else {
            Number::finite(Parts { negative, significand: rounded.0, exponent: rounded.1 })
        }
    }

    /// The parts of a finite number.
    fn parts(&self) -> (parts: Option<Parts>)
        ensures
            match parts {
                Some(p) => p.valid() && self@ == p.number() && self@.is_finite() && self@.value()
                    == p.value() && (p.significand == 0) == self@.is_zero() && p.negative
                    == self@.is_negative(),
                None => !self@.is_finite(),
            },
    {
        proof {
            use_type_invariant(self);
        }
        match self.repr {
            Repr::Finite { negative, significand, exponent } => {
                let parts = Parts { negative, significand, exponent };
                proof {
                    if significand > 0 {
                        lemma_parts_exact(parts);
                    } else {
                        assert(0 * pow2(exponent as nat) == 0) by (nonlinear_arith);
                    }
                }
                Some(parts)
            },
            _ => None,
        }
    }

    /// The double nearest to `significand * 2^exponent`, with the given sign.
    pub fn from_parts(negative: bool, significand: u64, exponent: u16) -> (number: Number)
        ensures
            number@ == if significand == 0 {
                signed_zero(negative)
            } else {
                bounded(negative, round_magnitude((significand * pow2(exponent as nat)) as nat))
            },
    {
        if significand == 0 {
            Number::signed_zero(negative)
        } else {
            proof {
                lemma_round_scales(significand as nat, exponent as nat);
            }
            Number::pack(negative, round_parts(significand as u128, false, exponent as u32))
        }
    }

    /// The number for a 32-bit integer; all of them are doubles.
    pub fn from_i32(n: i32) -> (number: Number)
        ensures
            number@ == NumberView::Int(n as int),
    {
        let size: u64 = if n < 0 {
            (-(n as i64)) as u64
        } else {
            n as u64
        };
        proof {
            lemma_significand_constants();
            assert(size * pow2(0) == size) by (nonlinear_arith)
                requires
                    pow2(0) == 1,
            ;
        }
        Number::finite(Parts { negative: n < 0, significand: size, exponent: 0 })
    }

    /// The number for a 64-bit integer, where it is a double.
    pub fn from_i64(n: i64) -> (number: Option<Number>)
        ensures
            match number {
                Some(x) => x@ == NumberView::Int(n as int) && round_magnitude(magnitude(n as int))
                    == magnitude(n as int),
                None => round_magnitude(magnitude(n as int)) != magnitude(n as int),
            },
    {
        let size: u64 = if n < 0 {
            ((-(n + 1)) as u64) + 1
        } else {
            n as u64
        };
        if size == 0 {
            proof {
                lemma_canonical_is_exact(0, 0);
                assert(0 * pow2(0) == 0) by (nonlinear_arith);
            }
            return Some(Number::signed_zero(false));
        }
        proof {
            lemma_significand_constants();
            lemma2_to64();
            assert(size * pow2(0) == size) by (nonlinear_arith)
                requires
                    pow2(0) == 1,
            ;
        }
        let rounded = round_parts(size as u128, false, 0);
        proof {
            lemma_overflow(rounded.0 as nat, rounded.1 as nat);
            lemma_pow2_pos(rounded.1 as nat);
            if rounded.1 > 12 {
                lemma_pow2_strictly_increases(12, rounded.1 as nat);
                assert(rounded.0 * pow2(rounded.1 as nat) > size) by (nonlinear_arith)
                    requires
                        rounded.0 >= SIGNIFICAND_FLOOR,
                        pow2(rounded.1 as nat) > 0x1000,
                        size < 0x1_0000_0000_0000_0000,
                ;
            }
        }
        if rounded.1 > 12 {
            return None;
        }
        let unit = power_of_two(rounded.1);
        proof {
            assert(unit <= 0x1000) by {
                if rounded.1 < 12 {
                    lemma_pow2_strictly_increases(rounded.1 as nat, 12);
                }
            }
        }
        proof {
            assert(rounded.0 * unit < 0x20_0000_0000_0000 * 0x1001) by (nonlinear_arith)
                requires
                    rounded.0 < SIGNIFICAND_LIMIT,
                    unit <= 0x1000,
                    SIGNIFICAND_LIMIT == 0x20_0000_0000_0000,
            ;
        }
        if (rounded.0 as u128) * unit == size as u128 {
            Some(Number::pack(n < 0, rounded))
        } else {
            None
        }
    }

    /// NaN.
    pub fn nan() -> (number: Number)
        ensures
            number@ == NumberView::Nan,
    {
        Number { repr: Repr::Nan }
    }

    /// Positive infinity.
    pub fn infinity() -> (number: Number)
        ensures
            number@ == NumberView::Infinity,
    {
        Number { repr: Repr::Infinity }
    }

    /// Negative infinity.
    pub fn neg_infinity() -> (number: Number)
        ensures
            number@ == NumberView::NegInfinity,
    {
        Number { repr: Repr::NegInfinity }
    }

    /// Negative zero.
    pub fn neg_zero() -> (number: Number)
        ensures
            number@ == NumberView::NegZero,
    {
        Number::signed_zero(true)
    }

    /// The integer that the number is, where it is one of magnitude below two to the power
    /// 63. Negative zero is no integer.
    pub fn as_i64(&self) -> (n: Option<i64>)
        ensures
            match n {
                Some(i) => self@ == NumberView::Int(i as int) && magnitude(i as int)
                    < 0x8000_0000_0000_0000,
                None => !(self@ is Int) || magnitude(self@.value()) >= 0x8000_0000_0000_0000,
            },
    {
        match self.parts() {
            Some(p) => {
                if p.significand == 0 {
                    if p.negative {
                        None
                    } else {
                        Some(0)
                    }
                } else if p.exponent > 10 {
                    proof {
                        lemma_significand_constants();
                        lemma2_to64();
                        if p.exponent > 11 {
                            lemma_pow2_strictly_increases(11, p.exponent as nat);
                        }
                        assert(p.significand * pow2(p.exponent as nat) >= 0x8000_0000_0000_0000)
                            by (nonlinear_arith)
                            requires
                                p.significand >= 0x10_0000_0000_0000,
                                pow2(p.exponent as nat) >= 0x800,
                        ;
                    }
                    None
                } else {
                    let unit = power_of_two(p.exponent);
                    proof {
                        lemma2_to64();
                        if p.exponent < 10 {
                            lemma_pow2_strictly_increases(p.exponent as nat, 10);
                        }
                        assert(p.significand * unit < 0x8000_0000_0000_0000) by (nonlinear_arith)
                            requires
                                p.significand < SIGNIFICAND_LIMIT,
                                unit <= 0x400,
                        ;
                    }
                    let size: i64 = ((p.significand as u128) * unit) as i64;
                    if p.negative {
                        Some(-size)
                    } else {
                        Some(size)
                    }
                }
            },
            None => None,
        }
    }

    fn sign_bit(&self) -> (negative: bool)
        ensures
            negative == self@.is_negative(),
    {
        match self.parts() {
            Some(p) => p.negative,
            None => match self.repr {
                Repr::NegInfinity => true,
                _ => false,
            },
        }
    }

    fn signed_zero(negative: bool) -> (number: Number)
        ensures
            number@ == signed_zero(negative),
    {
        Number::finite(Parts { negative, significand: 0, exponent: 0 })
    }

    fn signed_infinity(negative: bool) -> (number: Number)
        ensures
            number@ == signed_infinity(negative),
    {
        if negative {
            Number { repr: Repr::NegInfinity }
        } else {
            Number { repr: Repr::Infinity }
        }
    }

    /// Whether the number is NaN.
    pub fn is_nan(&self) -> (nan: bool)
        ensures
            nan == (self@ is Nan),
    {
        match self.parts() {
            Some(_) => false,
            None => match self.repr {
                Repr::Nan => true,
                _ => false,
            },
        }
    }

    /// The number with the sign bit flipped.
    pub fn neg(&self) -> (number: Number)
        ensures
            number@ == num_neg(self@),
    {
        match self.parts() {
            Some(p) => Number::finite(
                Parts { negative: !p.negative, significand: p.significand, exponent: p.exponent },
            ),
            None => match self.repr {
                Repr::Infinity => Number { repr: Repr::NegInfinity },
                Repr::NegInfinity => Number { repr: Repr::Infinity },
                _ => Number { repr: Repr::Nan },
            },
        }
    }

    /// The sum of two finite numbers of which the first has the larger exponent, or the same.
    fn add_ordered(high: Parts, low: Parts) -> (sum: Number)
        requires
            high.valid(),
            low.valid(),
            high.exponent >= low.exponent,
            high.significand > 0 || low.significand > 0,
        ensures
            sum@ == nearest(high.value() + low.value()),
    {
        proof {
            lemma_significand_constants();
            lemma_pow2_pos(low.exponent as nat);
            lemma_pow2_pos(high.exponent as nat);
            if high.significand == 0 {
                assert(0 * pow2(high.exponent as nat) == 0) by (nonlinear_arith);
            }
            if low.significand == 0 {
                assert(0 * pow2(low.exponent as nat) == 0) by (nonlinear_arith);
            }
        }
        if low.significand == 0 {
            proof {
                lemma_parts_exact(high);
            }
            return Number::finite(high);
        }
        proof {
            lemma_parts_exact(low);
        }
        let distance = high.exponent - low.exponent;
        let ghost unit = pow2(low.exponent as nat);
        if distance <= 64 {
            let scale: u128 = power_of_two(distance);
            proof {
                lemma2_to64();
                if distance < 64 {
                    lemma_pow2_strictly_increases(distance as nat, 64);
                }
                assert(high.significand * scale < 0x20_0000_0000_0000 * 0x1_0000_0000_0000_0000)
                    by (nonlinear_arith)
                    requires
                        high.significand < SIGNIFICAND_LIMIT,
                        scale <= 0x1_0000_0000_0000_0000,
                        SIGNIFICAND_LIMIT == 0x20_0000_0000_0000,
                ;
            }
            let shifted: u128 = (high.significand as u128) * scale;
            proof {
                lemma_pow2_adds(distance as nat, low.exponent as nat);
                assert(high.significand * (pow2(distance as nat) * unit) == (high.significand
                    * pow2(distance as nat)) * unit) by (nonlinear_arith);
                assert(high.size() == shifted * unit);
            }
            let same = high.negative == low.negative;
            let (negative, exact): (bool, u128) = if same {
                (high.negative, shifted + low.significand as u128)
            } else if shifted >= low.significand as u128 {
                (high.negative, shifted - low.significand as u128)
            } else {
                (low.negative, low.significand as u128 - shifted)
            };
            proof {
                assert((shifted + low.significand) * unit == shifted * unit + low.significand
                    * unit && (shifted - low.significand) * unit == shifted * unit
                    - low.significand * unit && (low.significand - shifted) * unit
                    == low.significand * unit - shifted * unit) by (nonlinear_arith);
                lemma_round_scales(exact as nat, low.exponent as nat);
                assert(exact > 0 ==> exact * unit > 0) by (nonlinear_arith)
                    requires
                        unit > 0,
                ;
            }
            if exact == 0 {
                proof {
                    lemma_canonical_is_exact(0, 0);
                    lemma_pow2_pos(OVERFLOW_EXPONENT as nat);
                    assert(0 * pow2(0) == 0 && 0 * unit == 0) by (nonlinear_arith);
                }
                Number::signed_zero(false)
            } else {
                Number::pack(negative, round_parts(exact, false, low.exponent))
            }
        } else {
            let same = high.negative == low.negative;
            let marked: u128 = if same {
                16 * (high.significand as u128) + 1
            } else {
                16 * (high.significand as u128) - 1
            };
            proof {
                let e1 = high.exponent as nat;
                lemma_pow2_adds(53, low.exponent as nat);
                lemma_pow2_strictly_increases((53 + low.exponent) as nat, (e1 - 3) as nat);
                assert(low.size() < SIGNIFICAND_LIMIT * unit) by (nonlinear_arith)
                    requires
                        low.size() == low.significand * unit,
                        low.significand < SIGNIFICAND_LIMIT,
                        unit > 0,
                ;
                lemma_far_sum(high.significand as nat, e1, low.size(), same);
            }
            Number::pack(high.negative, round_parts(marked, false, high.exponent - 4))
        }
    }

    /// The sum: the double nearest to the exact sum.
    pub fn add(&self, other: &Number) -> (sum: Number)
        ensures
            sum@ == num_add(self@, other@),
    {
        match (self.parts(), other.parts()) {
            (Some(a), Some(b)) => {
                if a.significand == 0 && b.significand == 0 {
                    proof {
                        lemma_canonical_is_exact(0, 0);
                        lemma_pow2_pos(OVERFLOW_EXPONENT as nat);
                        assert(0 * pow2(0) == 0 && 0 * pow2(a.exponent as nat) == 0 && 0 * pow2(
                            b.exponent as nat,
                        ) == 0) by (nonlinear_arith);
                    }
                    Number::signed_zero(a.negative && b.negative)
                } else if a.exponent >= b.exponent {
                    Number::add_ordered(a, b)
                } else {
                    Number::add_ordered(b, a)
                }
            },
            (Some(_), None) => *other,
            (None, Some(_)) => *self,
            (None, None) => {
                if self.is_nan() || other.is_nan() || self.sign_bit() != other.sign_bit() {
                    Number { repr: Repr::Nan }
                } else {
                    *self
                }
            },
        }
    }

    /// The difference: the double nearest to the exact difference.
    pub fn sub(&self, other: &Number) -> (difference: Number)
        ensures
            difference@ == num_sub(self@, other@),
    {
        let negated = other.neg();
        self.add(&negated)
    }

    /// The product: the double nearest to the exact product.
    pub fn mul(&self, other: &Number) -> (product: Number)
        ensures
            product@ == num_mul(self@, other@),
    {
        let negative = self.sign_bit() != other.sign_bit();
        if self.is_nan() || other.is_nan() {
            return Number { repr: Repr::Nan };
        }
        match (self.parts(), other.parts()) {
            (Some(a), Some(b)) => {
                if a.significand == 0 || b.significand == 0 {
                    Number::signed_zero(negative)
                } else {
                    proof {
                        lemma_significand_constants();
                        lemma_parts_exact(a);
                        lemma_parts_exact(b);
                        let ua = pow2(a.exponent as nat);
                        let ub = pow2(b.exponent as nat);
                        lemma_pow2_adds(a.exponent as nat, b.exponent as nat);
                        assert((a.significand * ua) * (b.significand * ub) == (a.significand
                            * b.significand) * (ua * ub)) by (nonlinear_arith);
                        assert(a.significand * b.significand < 0x1_0000_0000_0000_0000
                            * 0x1_0000_0000_0000_0000 && a.significand * b.significand > 0)
                            by (nonlinear_arith)
                            requires
                                0 < a.significand < SIGNIFICAND_LIMIT,
                                0 < b.significand < SIGNIFICAND_LIMIT,
                        ;
                        lemma_round_scales(
                            (a.significand * b.significand) as nat,
                            (a.exponent + b.exponent) as nat,
                        );
                        assert(a.size() * b.size() > 0 && (-(a.size() as int)) * (-(b.size() as int))
                            == a.size() * b.size() && (-(a.size() as int)) * b.size() == -(
                        a.size() * b.size()) && a.size() * (-(b.size() as int)) == -(a.size()
                            * b.size())) by (nonlinear_arith)
                            requires
                                a.size() > 0,
                                b.size() > 0,
                        ;
                    }
                    let exact: u128 = (a.significand as u128) * (b.significand as u128);
                    Number::pack(negative, round_parts(exact, false, a.exponent + b.exponent))
                }
            },
            (Some(a), None) => {
                if a.significand == 0 {
                    Number { repr: Repr::Nan }
                } else {
                    Number::signed_infinity(negative)
                }
            },
            (None, Some(b)) => {
                if b.significand == 0 {
                    Number { repr: Repr::Nan }
                } else {
                    Number::signed_infinity(negative)
                }
            },
            (None, None) => Number::signed_infinity(negative),
        }
    }

    /// Strictly less than `other`.
    pub fn lt(&self, other: &Number) -> (less: bool)
        ensures
            less == num_lt(self@, other@),
    {
        if self.is_nan() || other.is_nan() {
            return false;
        }
        match (self.parts(), other.parts()) {
            (Some(a), Some(b)) => {
                proof {
                    lemma_pow2_pos(a.exponent as nat);
                    if a.exponent < b.exponent {
                        lemma_order(
                            a.significand as nat,
                            a.exponent as nat,
                            b.significand as nat,
                            b.exponent as nat,
                        );
                    }
                    if b.exponent < a.exponent {
                        lemma_order(
                            b.significand as nat,
                            b.exponent as nat,
                            a.significand as nat,
                            a.exponent as nat,
                        );
                    }
                    if a.exponent == b.exponent {
                        let u = pow2(a.exponent as nat);
                        assert((a.significand < b.significand) == (a.significand * u
                            < b.significand * u) && (a.significand > b.significand)
                            == (a.significand * u > b.significand * u)) by (nonlinear_arith)
                            requires
                                u > 0,
                        ;
                    }
                }
                let smaller = a.exponent < b.exponent || (a.exponent == b.exponent
                    && a.significand < b.significand);
                let larger = b.exponent < a.exponent || (a.exponent == b.exponent
                    && b.significand < a.significand);
                if a.negative && b.negative {
                    larger
                } else if a.negative {
                    a.significand > 0 || b.significand > 0
                } else if b.negative {
                    false
                } else {
                    smaller
                }
            },
            (Some(_), None) => !other.sign_bit(),
            (None, Some(_)) => self.sign_bit(),
            (None, None) => self.sign_bit() && !other.sign_bit(),
        }
    }

    /// Less than or equal to `other`.
    pub fn le(&self, other: &Number) -> (at_most: bool)
        ensures
            at_most == num_le(self@, other@),
    {
        !self.is_nan() && !other.is_nan() && !other.lt(self)
    }

    /// Whether the two numbers are equal up to the tolerance of the equality operator.
    pub fn close_to(&self, other: &Number) -> (close: bool)
        ensures
            close == num_close(self@, other@),
    {
        !self.is_nan() && !other.is_nan() && self.parts().is_some() && other.parts().is_some()
            && !self.lt(other) && !other.lt(self)
    }

    /// The quotient rounded down to an integer; division by zero gives an infinity or NaN.
    pub fn div(&self, other: &Number) -> (quotient: Number)
        ensures
            quotient@ == num_div(self@, other@),
    {
        let negative = self.sign_bit() != other.sign_bit();
        if self.is_nan() || other.is_nan() {
            return Number { repr: Repr::Nan };
        }
        match (self.parts(), other.parts()) {
            (Some(a), Some(b)) => {
                if b.significand == 0 {
                    if a.significand == 0 {
                        Number { repr: Repr::Nan }
                    } else {
                        Number::signed_infinity(negative)
                    }
                } else if a.significand == 0 {
                    Number::signed_zero(negative)
                } else {
                    proof {
                        lemma_parts_exact(a);
                        lemma_parts_exact(b);
                    }
                    let rounded = quotient_parts(a, b, negative);
                    if rounded.0 == 0 {
                        proof {
                            lemma_pow2_pos(OVERFLOW_EXPONENT as nat);
                            assert(0 * pow2(rounded.1 as nat) == 0) by (nonlinear_arith);
                        }
                        Number::signed_zero(false)
                    } else {
                        Number::pack(negative, rounded)
                    }
                }
            },
            (Some(_), None) => Number::signed_zero(negative),
            (None, Some(_)) => Number::signed_infinity(negative),
            (None, None) => Number { repr: Repr::Nan },
        }
    }

    /// The remainder with the sign of the dividend; NaN for an infinite dividend or a zero divisor.
    pub fn rem(&self, other: &Number) -> (remainder: Number)
        ensures
            remainder@ == num_rem(self@, other@),
    {
        if self.is_nan() || other.is_nan() {
            return Number { repr: Repr::Nan };
        }
        match (self.parts(), other.parts()) {
            (Some(a), Some(b)) => {
                if b.significand == 0 {
                    Number { repr: Repr::Nan }
                } else if a.significand == 0 {
                    proof {
                        lemma_parts_exact(b);
                        assert(0 * pow2(a.exponent as nat) == 0) by (nonlinear_arith);
                        vstd::arithmetic::div_mod::lemma_small_mod(0, b.size());
                    }
                    *self
                } else {
                    proof {
                        lemma_parts_exact(a);
                        lemma_parts_exact(b);
                        vstd::arithmetic::div_mod::lemma_mod_pos_bound(
                            a.size() as int,
                            b.size() as int,
                        );
                    }
                    let rounded = remainder_parts(a, b);
                    proof {
                        if rounded.0 > 0 {
                            lemma_overflow(rounded.0 as nat, rounded.1 as nat);
                        }
                    }
                    if rounded.0 == 0 {
                        proof {
                            assert(0 * pow2(rounded.1 as nat) == 0) by (nonlinear_arith);
                        }
                        Number::signed_zero(a.negative)
                    } else {
                        Number::pack(a.negative, rounded)
                    }
                }
            },
            (Some(_), None) => *self,
            (None, _) => Number { repr: Repr::Nan },
        }
    }

    /// The text of the number.
    pub fn to_text(&self) -> (text: String)
        ensures
            text@ == number_text(self@),
    {
        match self.parts() {
            None => {
                proof {
                    reveal_strlit("NaN");
                    reveal_strlit("inf");
                    reveal_strlit("-inf");
                }
                assert("NaN"@ =~= seq!['N', 'a', 'N']);
                assert("inf"@ =~= seq!['i', 'n', 'f']);
                assert("-inf"@ =~= seq!['-', 'i', 'n', 'f']);
                match self.repr {
                    Repr::Infinity => "inf".to_owned(),
                    Repr::NegInfinity => "-inf".to_owned(),
                    _ => "NaN".to_owned(),
                }
            },
            Some(p) => {
                proof {
                    reveal_strlit("-");
                    reveal_strlit("-0");
                }
                assert("-"@ =~= seq!['-']);
                assert("-0"@ =~= seq!['-', '0']);
                if p.significand == 0 && p.negative {
                    return "-0".to_owned();
                }
                proof {
                    if p.significand > 0 {
                        lemma_parts_exact(p);
                    } else {
                        assert(0 * pow2(p.exponent as nat) == 0) by (nonlinear_arith);
                    }
                }
                let mut text = String::new();
                if p.negative {
                    text.append("-");
                }
                let digits = shortest_digits(p.significand, p.exponent);
                push_digits(&mut text, &digits);
                text
            },
        }
    }
}

/// The largest power of two that is not above `n`.
fn leading_power_of(n: u64) -> (power: u64)
    ensures
        power == leading_power(n as nat),
        1 <= power,
        n >= 1 ==> power <= n,
    decreases n,
{
    if n < 2 {
        1
    } else {
        2 * leading_power_of(n / 2)
    }
}

/// The quotient of two naturals that share a scale, rounded as a double and then to an
/// integer, down or up.
fn quotient_scaled(dividend: u128, divisor: u128, up: bool) -> (rounded: (u64, u32))
    requires
        0 < divisor <= 0x8000_0000_0000_0000,
        dividend < 0x40_0000_0000_0000_0000_0000_0000_0000,
    ensures
        canonical(rounded.0 as nat, rounded.1 as nat),
        rounded.0 * pow2(rounded.1 as nat) == if up {
            quotient_ceiling(dividend as nat, divisor as nat)
        } else {
            quotient_floor(dividend as nat, divisor as nat)
        },
{
    proof {
        lemma_significand_constants();
    }
    let whole: u128 = dividend / divisor;
    let rest: u128 = dividend % divisor;
    if whole >= SIGNIFICAND_LIMIT as u128 {
        proof {
            assert(round_sticky(whole as nat, rest != 0) * pow2(0) == round_sticky(
                whole as nat,
                rest != 0,
            )) by (nonlinear_arith)
                requires
                    pow2(0) == 1,
            ;
        }
        return round_parts(whole, rest != 0, 0);
    }
    let chosen: u128 = if rest == 0 {
        whole
    } else if whole >= SIGNIFICAND_FLOOR as u128 {
        if rest > divisor - rest || (rest == divisor - rest && whole % 2 == 1) {
            whole + 1
        } else {
            whole
        }
    } else {
        let scale: u128 = if whole == 0 {
            2 * (SIGNIFICAND_LIMIT as u128)
        } else {
            (SIGNIFICAND_LIMIT / leading_power_of(whole as u64)) as u128
        };
        assert(scale == gap_scale(whole as nat));
        assert(scale <= 2 * SIGNIFICAND_LIMIT);
        assert(rest * scale < 0x8000_0000_0000_0000 * 0x40_0000_0000_0000 && (divisor - rest)
            * scale < 0x8000_0000_0000_0000 * 0x40_0000_0000_0000 + 1) by (nonlinear_arith)
            requires
                0 <= rest < divisor,
                divisor <= 0x8000_0000_0000_0000,
                0 <= scale <= 0x40_0000_0000_0000,
        ;
        if up {
            if whole > 0 && rest * scale <= divisor {
                whole
            } else {
                whole + 1
            }
        } else {
            if (divisor - rest) * scale <= divisor {
                whole + 1
            } else {
                whole
            }
        }
    };
    proof {
        if chosen < SIGNIFICAND_LIMIT {
            lemma_canonical_is_exact(chosen as nat, 0);
        } else {
            lemma_canonical_is_exact(SIGNIFICAND_FLOOR as nat, 1);
        }
        assert(round_sticky(chosen as nat, false) * pow2(0) == round_sticky(chosen as nat, false)
            && chosen * pow2(0) == chosen && SIGNIFICAND_FLOOR * pow2(1) == SIGNIFICAND_LIMIT)
            by (nonlinear_arith)
            requires
                pow2(0) == 1,
                pow2(1) == 2,
                SIGNIFICAND_LIMIT == 2 * SIGNIFICAND_FLOOR,
        ;
    }
    round_parts(chosen, false, 0)
}

/// Rounding a quotient does not depend on the scale that dividend and divisor share.
proof fn lemma_quotient_scales(a: nat, b: nat, k: nat)
    requires
        b > 0,
    ensures
        quotient_floor(a * pow2(k), b * pow2(k)) == quotient_floor(a, b),
        quotient_ceiling(a * pow2(k), b * pow2(k)) == quotient_ceiling(a, b),
{
    lemma_scaled_division(a, b, k);
    let u = pow2(k);
    let whole = a / b;
    let rest = a % b;
    let g = gap_scale(whole);
    assert((2 * (rest * u) > b * u) == (2 * rest > b) && (2 * (rest * u) == b * u) == (2 * rest
        == b) && ((rest * u) == 0) == (rest == 0) && ((b * u - rest * u) * g <= b * u) == ((b
        - rest) * g <= b) && ((rest * u) * g <= b * u) == (rest * g <= b)) by (nonlinear_arith)
        requires
            u > 0,
    ;
}

/// A quotient far beyond two to the power 53 rounds as its 64 leading bits do, with what
/// lies below them as one bit more.
proof fn lemma_far_quotient(m1: nat, m2: nat, g: nat)
    requires
        SIGNIFICAND_FLOOR <= m1 < SIGNIFICAND_LIMIT,
        0 < m2 < SIGNIFICAND_LIMIT,
    ensures
        ({
            let lead = (m1 * pow2(64)) / m2;
            let below = (m1 * pow2(64)) % m2;
            &&& lead >= SIGNIFICAND_LIMIT
            &&& quotient_floor(m1 * pow2(64 + g), m2) == round_sticky(lead, below != 0) * pow2(g)
            &&& quotient_ceiling(m1 * pow2(64 + g), m2) == round_sticky(lead, below != 0) * pow2(g)
        }),
{
    lemma_significand_constants();
    lemma2_to64();
    lemma_pow2_adds(64, g);
    lemma_pow2_pos(g);
    let x = m1 * pow2(64);
    let scale = pow2(g);
    let lead = x / m2;
    let below = x % m2;
    vstd::arithmetic::div_mod::lemma_fundamental_div_mod(x as int, m2 as int);
    let low = (below * scale) / m2;
    let rest = (below * scale) % m2;
    vstd::arithmetic::div_mod::lemma_fundamental_div_mod((below * scale) as int, m2 as int);
    assert(below < m2);
    assert(low < scale && low >= 0 && (below == 0 ==> low == 0 && rest == 0) && (below != 0
        ==> low != 0 || rest != 0)) by (nonlinear_arith)
        requires
            below * scale == m2 * low + rest,
            0 <= rest < m2,
            0 <= below < m2,
            scale > 0,
    ;
    assert(m1 * (pow2(64) * scale) == m2 * (lead * scale + low) + rest) by (nonlinear_arith)
        requires
            x == m1 * pow2(64),
            x == m2 * lead + below,
            below * scale == m2 * low + rest,
    ;
    assert((lead * scale + low) * m2 + rest == m2 * (lead * scale + low) + rest)
        by (nonlinear_arith);
    lemma_fundamental_div_mod_converse(
        (m1 * pow2(64 + g)) as int,
        m2 as int,
        (lead * scale + low) as int,
        rest as int,
    );
    assert(lead >= SIGNIFICAND_LIMIT) by (nonlinear_arith)
        requires
            x == m2 * lead + below,
            below < m2,
            m2 < SIGNIFICAND_LIMIT,
            x == m1 * 0x1_0000_0000_0000_0000,
            m1 >= SIGNIFICAND_FLOOR,
            SIGNIFICAND_LIMIT == 2 * SIGNIFICAND_FLOOR,
            SIGNIFICAND_LIMIT == 0x20_0000_0000_0000,
    ;
    assert(lead * scale + low >= SIGNIFICAND_LIMIT) by (nonlinear_arith)
        requires
            lead >= SIGNIFICAND_LIMIT,
            scale >= 1,
            low >= 0,
    ;
    lemma_round_sticky_low(lead, g, low, rest != 0);
}

/// The quotient of two finite numbers that are not zero, rounded as a double and then to an
/// integer: up where the quotient is negative, for its magnitude, and down where it is not.
fn quotient_parts(a: Parts, b: Parts, up: bool) -> (rounded: (u64, u32))
    requires
        a.valid(),
        b.valid(),
        a.significand > 0,
        b.significand > 0,
    ensures
        canonical(rounded.0 as nat, rounded.1 as nat),
        rounded.0 * pow2(rounded.1 as nat) == if up {
            quotient_ceiling(a.size(), b.size())
        } else {
            quotient_floor(a.size(), b.size())
        },
{
    proof {
        lemma_significand_constants();
        lemma2_to64();
    }
    if a.exponent >= b.exponent {
        let distance = a.exponent - b.exponent;
        proof {
            lemma_pow2_adds(distance as nat, b.exponent as nat);
            assert(a.significand * (pow2(distance as nat) * pow2(b.exponent as nat)) == (
            a.significand * pow2(distance as nat)) * pow2(b.exponent as nat)) by (nonlinear_arith);
            lemma_quotient_scales(
                (a.significand * pow2(distance as nat)) as nat,
                b.significand as nat,
                b.exponent as nat,
            );
        }
        if distance <= 64 {
            proof {
                if distance < 64 {
                    lemma_pow2_strictly_increases(distance as nat, 64);
                }
            }
            let scale: u128 = power_of_two(distance);
            proof {
                assert(a.significand * scale < 0x20_0000_0000_0000 * 0x1_0000_0000_0000_0000)
                    by (nonlinear_arith)
                    requires
                        a.significand < SIGNIFICAND_LIMIT,
                        scale <= 0x1_0000_0000_0000_0000,
                        SIGNIFICAND_LIMIT == 0x20_0000_0000_0000,
                ;
            }
            let dividend: u128 = (a.significand as u128) * scale;
            quotient_scaled(dividend, b.significand as u128, up)
        } else {
            proof {
                lemma_far_quotient(
                    a.significand as nat,
                    b.significand as nat,
                    (distance - 64) as nat,
                );
            }
            let scale: u128 = power_of_two(64);
            proof {
                assert(a.significand * scale < 0x20_0000_0000_0000 * 0x1_0000_0000_0000_0000)
                    by (nonlinear_arith)
                    requires
                        a.significand < SIGNIFICAND_LIMIT,
                        scale == 0x1_0000_0000_0000_0000,
                        SIGNIFICAND_LIMIT == 0x20_0000_0000_0000,
                ;
            }
            let wide: u128 = (a.significand as u128) * scale;
            let lead: u128 = wide / (b.significand as u128);
            let below: u128 = wide % (b.significand as u128);
            round_parts(lead, below != 0, distance - 64)
        }
    } else {
        let distance = b.exponent - a.exponent;
        proof {
            lemma_pow2_adds(distance as nat, a.exponent as nat);
            lemma_pow2_pos(distance as nat);
            assert(b.significand * (pow2(distance as nat) * pow2(a.exponent as nat)) == (
            b.significand * pow2(distance as nat)) * pow2(a.exponent as nat)) by (nonlinear_arith);
            assert(b.significand * pow2(distance as nat) > 0) by (nonlinear_arith)
                requires
                    b.significand > 0,
                    pow2(distance as nat) > 0,
            ;
            lemma_quotient_scales(
                a.significand as nat,
                (b.significand * pow2(distance as nat)) as nat,
                a.exponent as nat,
            );
            lemma_pow2_pos(distance as nat);
        }
        if distance <= 10 {
            proof {
                if distance < 10 {
                    lemma_pow2_strictly_increases(distance as nat, 10);
                }
            }
            let scale: u128 = power_of_two(distance);
            proof {
                assert(0 < b.significand * scale <= 0x20_0000_0000_0000 * 0x400) by (nonlinear_arith)
                    requires
                        0 < b.significand < SIGNIFICAND_LIMIT,
                        1 <= scale <= 0x400,
                        SIGNIFICAND_LIMIT == 0x20_0000_0000_0000,
                ;
            }
            let divisor: u128 = (b.significand as u128) * scale;
            quotient_scaled(a.significand as u128, divisor, up)
        } else {
            proof {
                lemma_pow2_strictly_increases(10, distance as nat);
                let m1 = a.significand as nat;
                let wide = (b.significand * pow2(distance as nat)) as nat;
                assert(wide > 2 * m1) by (nonlinear_arith)
                    requires
                        wide == b.significand * pow2(distance as nat),
                        pow2(distance as nat) > 1024,
                        b.significand >= 1,
                        m1 < SIGNIFICAND_LIMIT,
                        b.significand >= SIGNIFICAND_FLOOR,
                        SIGNIFICAND_LIMIT == 2 * SIGNIFICAND_FLOOR,
                ;
                vstd::arithmetic::div_mod::lemma_small_mod(m1, wide);
                vstd::arithmetic::div_mod::lemma_basic_div(m1 as int, wide as int);
                assert((wide - m1) * (2 * SIGNIFICAND_LIMIT) > wide) by (nonlinear_arith)
                    requires
                        wide > 2 * m1,
                        m1 >= 0,
                ;
                lemma_canonical_is_exact(1, 0);
                lemma_canonical_is_exact(0, 0);
                assert(1 * pow2(0) == 1 && 0 * pow2(0) == 0) by (nonlinear_arith)
                    requires
                        pow2(0) == 1,
                ;
            }
            if up {
                (1, 0)
            } else {
                (0, 0)
            }
        }
    }
}

/// The remainder of the magnitudes of two finite numbers that are not zero.
fn remainder_parts(a: Parts, b: Parts) -> (rounded: (u64, u32))
    requires
        a.valid(),
        b.valid(),
        a.significand > 0,
        b.significand > 0,
    ensures
        canonical(rounded.0 as nat, rounded.1 as nat),
        rounded.0 * pow2(rounded.1 as nat) == a.size() % b.size(),
        rounded.1 <= MAX_EXPONENT,
{
    proof {
        lemma_significand_constants();
        lemma_parts_exact(a);
        lemma_parts_exact(b);
    }
    if a.exponent < b.exponent {
        proof {
            lemma_order(
                a.significand as nat,
                a.exponent as nat,
                b.significand as nat,
                b.exponent as nat,
            );
            vstd::arithmetic::div_mod::lemma_small_mod(a.size(), b.size());
        }
        (a.significand, a.exponent)
    } else {
        let distance = a.exponent - b.exponent;
        let mut rest: u64 = a.significand % b.significand;
        let mut i: u32 = 0;
        proof {
            assert(a.significand * pow2(0) == a.significand) by (nonlinear_arith)
                requires
                    pow2(0) == 1,
            ;
        }
        while i < distance
            invariant
                i <= distance,
                0 < b.significand < SIGNIFICAND_LIMIT,
                rest == (a.significand * pow2(i as nat)) % (b.significand as int),
                rest < b.significand,
            decreases distance - i,
        {
            proof {
                lemma_pow2_unfold((i + 1) as nat);
                let x = a.significand * pow2(i as nat);
                vstd::arithmetic::div_mod::lemma_mul_mod_noop_right(2, x, b.significand as int);
                assert(a.significand * (2 * pow2(i as nat)) == 2 * x) by (nonlinear_arith)
                    requires
                        x == a.significand * pow2(i as nat),
                ;
            }
            rest = (2 * rest) % b.significand;
            i = i + 1;
        }
        proof {
            let unit = pow2(b.exponent as nat);
            lemma_pow2_adds(distance as nat, b.exponent as nat);
            assert(a.significand * (pow2(distance as nat) * unit) == (a.significand * pow2(
                distance as nat,
            )) * unit) by (nonlinear_arith);
            lemma_scaled_division(
                (a.significand * pow2(distance as nat)) as nat,
                b.significand as nat,
                b.exponent as nat,
            );
            lemma_canonical_is_exact(rest as nat, 0);
            assert(rest * pow2(0) == rest) by (nonlinear_arith)
                requires
                    pow2(0) == 1,
            ;
        }
        let rounded = round_parts(rest as u128, false, b.exponent);
        proof {
            if rounded.0 > 0 {
                lemma_overflow(rounded.0 as nat, rounded.1 as nat);
                vstd::arithmetic::div_mod::lemma_mod_pos_bound(a.size() as int, b.size() as int);
            } else {
                lemma_canonical_is_exact(0, 0);
            }
        }
        if rounded.0 == 0 {
            (0, 0)
        } else {
            rounded
        }
    }
}

} // verus!
