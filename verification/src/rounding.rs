//! Rounding an exact natural number to the nearest double.
//!
//! A finite double of integer value is a significand below two to the power 53 times a power
//! of two. Rounding keeps the 53 leading bits of a number and rounds what it cuts off to the
//! nearest, a tie to the even significand.

use vstd::prelude::*;
use vstd::arithmetic::div_mod::{
    lemma_div_denominator,
    lemma_div_multiples_vanish_quotient,
    lemma_fundamental_div_mod,
    lemma_mod_breakdown,
    lemma_truncate_middle,
};
use vstd::arithmetic::power2::{
    lemma2_to64,
    lemma_pow2_adds,
    lemma_pow2_pos,
    lemma_pow2_unfold,
    pow2,
};

verus! {

/// Two to the power 53: every significand is below it.
pub const SIGNIFICAND_LIMIT: u64 = 9_007_199_254_740_992;

/// Two to the power 52: the significand of a number with a positive exponent is at least this.
pub const SIGNIFICAND_FLOOR: u64 = 4_503_599_627_370_496;

/// The largest exponent of a finite double of integer value.
pub const MAX_EXPONENT: u32 = 971;

/// The exponent of the unit in the last place of the double nearest to `n`: how many trailing
/// bits of `n` do not fit in a significand.
pub open spec fn ulp_exponent(n: nat) -> nat
    decreases n,
{
    if n < SIGNIFICAND_LIMIT {
        0
    } else {
        1 + ulp_exponent(n / 2)
    }
}

/// The rounding of a number that lies between `n` and `n + 1`: at `n` itself unless `above`
/// is set, strictly between the two if it is. The result is the nearest natural number that
/// is a significand times the unit in the last place of `n`; of two that are equally near,
/// the one with the even significand. `above` is only meant for `n` of at least two to the
/// power 53, where the unit is at least two.
pub open spec fn round_sticky(n: nat, above: bool) -> nat {
    let unit = pow2(ulp_exponent(n));
    let kept = n / unit;
    let cut = n % unit;
    if 2 * cut > unit || (2 * cut == unit && (above || kept % 2 == 1)) {
        (kept + 1) * unit
    } else {
        kept * unit
    }
}

/// The natural number nearest to `n` that a double can hold exactly, were its exponent
/// unbounded; of two that are equally near, the one with the even significand.
pub open spec fn round_magnitude(n: nat) -> nat {
    round_sticky(n, false)
}

/// Whether a significand and an exponent are those of a double of integer value, in the one
/// form that each value has.
pub open spec fn canonical(significand: nat, exponent: nat) -> bool {
    significand < SIGNIFICAND_LIMIT && (exponent > 0 ==> significand >= SIGNIFICAND_FLOOR)
}

pub proof fn lemma_significand_constants()
    ensures
        pow2(52) == SIGNIFICAND_FLOOR,
        pow2(53) == SIGNIFICAND_LIMIT,
        pow2(1) == 2,
        pow2(0) == 1,
{
    lemma2_to64();
    lemma_pow2_adds(32, 20);
    lemma_pow2_adds(32, 21);
}

/// A number between `2^(52+e)` and `2^(53+e)` has `e` as the exponent of its last place.
pub proof fn lemma_ulp_exponent(n: nat, e: nat)
    requires
        n < SIGNIFICAND_LIMIT * pow2(e),
        e > 0 ==> n >= SIGNIFICAND_FLOOR * pow2(e),
    ensures
        ulp_exponent(n) == e,
    decreases e,
{
    lemma_significand_constants();
    if e > 0 {
        lemma_pow2_unfold(e);
        lemma_pow2_pos((e - 1) as nat);
        let below = pow2((e - 1) as nat);
        assert(n >= SIGNIFICAND_LIMIT) by (nonlinear_arith)
            requires
                n >= SIGNIFICAND_FLOOR * (2 * below),
                below >= 1,
                SIGNIFICAND_LIMIT == 2 * SIGNIFICAND_FLOOR,
        ;
        assert(n / 2 < SIGNIFICAND_LIMIT * below && n / 2 >= SIGNIFICAND_FLOOR * below)
            by (nonlinear_arith)
            requires
                n < SIGNIFICAND_LIMIT * (2 * below),
                n >= SIGNIFICAND_FLOOR * (2 * below),
        ;
        lemma_ulp_exponent(n / 2, (e - 1) as nat);
    } else {
        assert(pow2(0) == 1);
    }
}

/// A double of integer value is its own rounding.
pub proof fn lemma_canonical_is_exact(significand: nat, exponent: nat)
    requires
        canonical(significand, exponent),
    ensures
        round_magnitude(significand * pow2(exponent)) == significand * pow2(exponent),
        ulp_exponent(significand * pow2(exponent)) == exponent,
{
    lemma_significand_constants();
    lemma_pow2_pos(exponent);
    let unit = pow2(exponent);
    let n = significand * unit;
    assert(n < SIGNIFICAND_LIMIT * unit && (exponent > 0 ==> n >= SIGNIFICAND_FLOOR * unit))
        by (nonlinear_arith)
        requires
            n == significand * unit,
            unit >= 1,
            significand < SIGNIFICAND_LIMIT,
            exponent > 0 ==> significand >= SIGNIFICAND_FLOOR,
    ;
    lemma_ulp_exponent(n, exponent);
    lemma_scaled_division(significand, 1, exponent);
}

/// Dividing `s * 2^k` by `p * 2^k` is dividing `s` by `p`; the remainder is scaled.
pub proof fn lemma_scaled_division(s: nat, p: nat, k: nat)
    requires
        p > 0,
    ensures
        pow2(k) > 0,
        (s * pow2(k)) / (p * pow2(k)) == s / p,
        (s * pow2(k)) % (p * pow2(k)) == (s % p) * pow2(k),
{
    lemma_pow2_pos(k);
    let scale = pow2(k) as int;
    lemma_div_multiples_vanish_quotient(scale, s as int, p as int);
    lemma_truncate_middle(s as int, scale, p as int);
    assert(s * scale == scale * s && p * scale == scale * p && (s % p) * scale == scale * (s % p))
        by (nonlinear_arith);
}

/// What the exponent of the last place says of a number: it lies between `2^(52+e)` and
/// `2^(53+e)`, or below `2^53` where the exponent is zero.
pub proof fn lemma_ulp_bounds(n: nat)
    ensures
        n < SIGNIFICAND_LIMIT * pow2(ulp_exponent(n)),
        ulp_exponent(n) > 0 ==> n >= SIGNIFICAND_FLOOR * pow2(ulp_exponent(n)),
        n >= SIGNIFICAND_LIMIT ==> ulp_exponent(n) > 0,
    decreases n,
{
    lemma_significand_constants();
    if n >= SIGNIFICAND_LIMIT {
        lemma_ulp_bounds(n / 2);
        let e = ulp_exponent(n / 2);
        lemma_pow2_unfold(e + 1);
        lemma_pow2_pos(e);
        let below = pow2(e);
        assert(n < SIGNIFICAND_LIMIT * (2 * below) && n >= SIGNIFICAND_FLOOR * (2 * below))
            by (nonlinear_arith)
            requires
                n / 2 < SIGNIFICAND_LIMIT * below,
                e > 0 ==> n / 2 >= SIGNIFICAND_FLOOR * below,
                e == 0 ==> below == 1,
                n >= SIGNIFICAND_LIMIT,
                SIGNIFICAND_LIMIT == 2 * SIGNIFICAND_FLOOR,
        ;
    }
}

/// Low bits that lie wholly below the last place only tell the rounding whether there is
/// anything there: the rounding of `high * 2^c + low` is the rounding of `high`, with
/// something above it where `low` is not zero, times `2^c`.
pub proof fn lemma_round_sticky_low(high: nat, c: nat, low: nat, above: bool)
    requires
        high >= SIGNIFICAND_LIMIT,
        low < pow2(c),
    ensures
        round_sticky(high * pow2(c) + low, above) == round_sticky(high, above || low != 0) * pow2(c),
        ulp_exponent(high * pow2(c) + low) == ulp_exponent(high) + c,
{
    lemma_significand_constants();
    lemma_ulp_bounds(high);
    let eh = ulp_exponent(high);
    let unit = pow2(eh);
    let scale = pow2(c);
    let n = high * scale + low;
    lemma_pow2_pos(c);
    lemma_pow2_pos(eh);
    lemma_pow2_adds(c, eh);
    lemma_pow2_adds(eh, c);
    lemma_pow2_unfold(eh);
    let half = pow2((eh - 1) as nat);
    assert(n < SIGNIFICAND_LIMIT * (unit * scale) && n >= SIGNIFICAND_FLOOR * (unit * scale))
        by (nonlinear_arith)
        requires
            n == high * scale + low,
            low < scale,
            high < SIGNIFICAND_LIMIT * unit,
            high >= SIGNIFICAND_FLOOR * unit,
    ;
    lemma_ulp_exponent(n, eh + c);
    assert(n == high * scale + low);
    vstd::arithmetic::div_mod::lemma_fundamental_div_mod_converse(
        n as int,
        scale as int,
        high as int,
        low as int,
    );
    lemma_div_denominator(n as int, scale as int, unit as int);
    lemma_mod_breakdown(n as int, scale as int, unit as int);
    let kept = high / unit;
    let cut_high = high % unit;
    let cut = n % (scale * unit);
    assert(scale * unit == unit * scale) by (nonlinear_arith);
    assert(n / (unit * scale) == kept);
    assert(cut == scale * cut_high + low);
    lemma_fundamental_div_mod(high as int, unit as int);
    assert(unit == 2 * half);
    assert((2 * cut > unit * scale) == (2 * cut_high > unit || (2 * cut_high == unit && low != 0))
        && (2 * cut == unit * scale) == (2 * cut_high == unit && low == 0)) by (nonlinear_arith)
        requires
            cut == scale * cut_high + low,
            0 <= low < scale,
            unit == 2 * half,
            0 <= cut_high,
    ;
    assert((kept + 1) * unit * scale == (kept + 1) * (unit * scale) && kept * unit * scale == kept
        * (unit * scale)) by (nonlinear_arith);
}

/// Rounding commutes with scaling by a power of two.
pub proof fn lemma_round_scales(significand: nat, exponent: nat)
    ensures
        round_magnitude(significand * pow2(exponent)) == round_magnitude(significand) * pow2(
            exponent,
        ),
    decreases exponent,
{
    lemma_significand_constants();
    if significand >= SIGNIFICAND_LIMIT {
        lemma_pow2_pos(exponent);
        lemma_round_sticky_low(significand, exponent, 0, false);
    } else {
        lemma_canonical_is_exact(significand, 0);
        assert(significand * pow2(0) == significand) by (nonlinear_arith)
            requires
                pow2(0) == 1,
        ;
        if significand >= SIGNIFICAND_FLOOR || exponent == 0 {
            lemma_canonical_is_exact(significand, exponent);
        } else {
            lemma_pow2_unfold(exponent);
            let below = pow2((exponent - 1) as nat);
            assert(significand * (2 * below) == (2 * significand) * below) by (nonlinear_arith);
            lemma_round_scales(2 * significand, (exponent - 1) as nat);
            lemma_canonical_is_exact(2 * significand, 0);
            assert((2 * significand) * pow2(0) == 2 * significand) by (nonlinear_arith)
                requires
                    pow2(0) == 1,
            ;
        }
    }
}

/// The significand and exponent of the double nearest to a number between `significand` and
/// `significand + 1`, times `2^exponent`: at `significand` itself unless `above` is set. The
/// exponent that comes out may be beyond the largest that a finite double has.
pub(crate) fn round_parts(significand: u128, above: bool, exponent: u32) -> (parts: (u64, u32))
    requires
        exponent <= 1_000_000,
        above ==> significand >= SIGNIFICAND_LIMIT,
    ensures
        canonical(parts.0 as nat, parts.1 as nat),
        parts.0 * pow2(parts.1 as nat) == round_sticky(significand as nat, above) * pow2(
            exponent as nat,
        ),
        parts.1 <= exponent + 128,
        significand > 0 ==> parts.0 > 0,
        significand >= SIGNIFICAND_LIMIT ==> parts.1 > exponent,
{
    proof {
        lemma_significand_constants();
        lemma_pow2_pos(exponent as nat);
    }
    if significand == 0 {
        proof {
            lemma_canonical_is_exact(0, 0);
            assert(0 * pow2(0) == 0 && 0 * pow2(exponent as nat) == 0) by (nonlinear_arith);
        }
        return (0, 0);
    }
    let mut unit: u128 = 1;
    let mut shift: u32 = 0;
    while significand / unit >= SIGNIFICAND_LIMIT as u128
        invariant
            unit == pow2(shift as nat),
            unit >= 1,
            shift <= 127,
            unit <= significand,
            shift > 0 ==> significand / unit >= SIGNIFICAND_FLOOR,
            shift < 127 ==> unit < 0x8000_0000_0000_0000_0000_0000_0000_0000u128,
        decreases significand / unit,
    {
        proof {
            lemma_fundamental_div_mod(significand as int, unit as int);
            let q = significand as int / unit as int;
            assert(unit * 2 * SIGNIFICAND_FLOOR <= significand) by (nonlinear_arith)
                requires
                    significand == unit * q + significand % unit,
                    significand % unit >= 0,
                    q >= SIGNIFICAND_LIMIT,
                    unit >= 1,
                    SIGNIFICAND_LIMIT == 2 * SIGNIFICAND_FLOOR,
            ;
            lemma_div_denominator(significand as int, unit as int, 2);
            lemma_pow2_unfold((shift + 1) as nat);
            assert(shift < 127) by {
                if shift >= 127 {
                    lemma2_to64();
                    lemma_pow2_adds(64, 63);
                    lemma_pow2_adds(32, 31);
                    assert(unit == pow2(127));
                    assert(false);
                }
            }
            assert(q / 2 < q);
        }
        unit = unit * 2;
        shift = shift + 1;
    }
    let kept: u128 = significand / unit;
    let cut: u128 = significand % unit;
    if shift == 0 {
        assert(significand / 1 == significand);
        let mut m: u64 = significand as u64;
        let mut e: u32 = exponent;
        proof {
            lemma_canonical_is_exact(significand as nat, 0);
            assert(significand * pow2(0) == significand) by (nonlinear_arith)
                requires
                    pow2(0) == 1,
            ;
        }
        while m < SIGNIFICAND_FLOOR && e > 0
            invariant
                m * pow2(e as nat) == significand * pow2(exponent as nat),
                0 < m < SIGNIFICAND_LIMIT,
                e <= exponent,
            decreases e,
        {
            proof {
                lemma_pow2_unfold(e as nat);
                assert((m * 2) * pow2((e - 1) as nat) == m * (2 * pow2((e - 1) as nat)))
                    by (nonlinear_arith);
            }
            m = m * 2;
            e = e - 1;
        }
        (m, e)
    } else {
        proof {
            lemma_fundamental_div_mod(significand as int, unit as int);
            assert(significand < SIGNIFICAND_LIMIT * unit && significand >= SIGNIFICAND_FLOOR * unit)
                by (nonlinear_arith)
                requires
                    significand == unit * kept + cut,
                    0 <= cut < unit,
                    SIGNIFICAND_FLOOR <= kept < SIGNIFICAND_LIMIT,
            ;
            lemma_ulp_exponent(significand as nat, shift as nat);
            lemma_pow2_adds(shift as nat, exponent as nat);
        }
        let up = cut > unit - cut || (cut == unit - cut && (above || kept % 2 == 1));
        let rounded: u64 = if up {
            (kept + 1) as u64
        } else {
            kept as u64
        };
        proof {
            assert(rounded * unit * pow2(exponent as nat) == rounded * (unit * pow2(
                exponent as nat,
            ))) by (nonlinear_arith);
        }
        if rounded == SIGNIFICAND_LIMIT {
            proof {
                let total = (shift + exponent) as nat;
                lemma_pow2_unfold((total + 1) as nat);
                assert(SIGNIFICAND_FLOOR * (2 * pow2(total)) == SIGNIFICAND_LIMIT * pow2(total))
                    by (nonlinear_arith)
                    requires
                        SIGNIFICAND_LIMIT == 2 * SIGNIFICAND_FLOOR,
                ;
            }
            (SIGNIFICAND_FLOOR, shift + exponent + 1)
        } else {
            (rounded, shift + exponent)
        }
    }
}

} // verus!
