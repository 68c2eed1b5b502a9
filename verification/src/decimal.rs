//! The decimal text of a double of integer value.
//!
//! A double is written with the fewest digits that still read back as the same double,
//! followed by zeros: of the numbers that lie nearer to it than to its neighbours, the one
//! with the most trailing zeros, and of two such the nearer one.

use vstd::prelude::*;
use vstd::arithmetic::div_mod::{lemma_fundamental_div_mod_converse, lemma_small_mod};
use vstd::arithmetic::power2::{lemma_pow2_pos, lemma_pow2_unfold, pow2};
use crate::rounding::{
    canonical,
    lemma_canonical_is_exact,
    lemma_scaled_division,
    lemma_significand_constants,
    ulp_exponent,
    SIGNIFICAND_FLOOR,
};

verus! {

/// Ten to the power `p`.
pub open spec fn pow10(p: nat) -> nat
    decreases p,
{
    if p == 0 {
        1
    } else {
        10 * pow10((p - 1) as nat)
    }
}

/// How far from a double a number may lie and still be nearer to it than to its neighbours:
/// twice the distance below and above, and whether a number at exactly that distance still
/// reads back as the double, which it does where the significand is even.
pub struct Reach {
    pub below: nat,
    pub above: nat,
    pub closed: bool,
}

/// The reach of the double of value `v`. Above, the next double is one unit in the last place
/// away. Below it is too, unless the significand is the smallest there is: then the doubles
/// below lie twice as close.
pub open spec fn reach(v: nat) -> Reach {
    let e = ulp_exponent(v);
    let significand = v / pow2(e);
    Reach {
        below: if e >= 1 && significand == SIGNIFICAND_FLOOR {
            pow2((e - 1) as nat)
        } else {
            pow2(e)
        },
        above: pow2(e),
        closed: significand % 2 == 0,
    }
}

/// Whether `v` with its last `p` digits cut off still reads back as `v`.
pub open spec fn reads_back_below(v: nat, reach: Reach, p: nat) -> bool {
    let cut = v % pow10(p);
    2 * cut < reach.below || (reach.closed && 2 * cut == reach.below)
}

/// Whether `v` with its last `p` digits cut off, and one added at the last place that is
/// left, still reads back as `v`.
pub open spec fn reads_back_above(v: nat, reach: Reach, p: nat) -> bool {
    let added = pow10(p) - v % pow10(p);
    2 * added < reach.above || (reach.closed && 2 * added == reach.above)
}

/// The most trailing zeros, from `p` on and at most 400, that a number can have that reads
/// back as `v`.
pub open spec fn most_zeros(v: nat, reach: Reach, p: nat) -> nat
    decreases 400 - p,
{
    if p >= 400 || !(reads_back_below(v, reach, p + 1) || reads_back_above(v, reach, p + 1)) {
        p
    } else {
        most_zeros(v, reach, p + 1)
    }
}

/// The number with the most trailing zeros that reads back as the double of value `v`; of
/// the one below `v` and the one above it, the nearer, and the upper one if they are equally
/// near.
pub open spec fn shortest(v: nat) -> nat {
    let reach = reach(v);
    let p = most_zeros(v, reach, 0);
    let cut = v % pow10(p);
    if reads_back_above(v, reach, p) && (!reads_back_below(v, reach, p) || 2 * cut >= pow10(p)) {
        (v - cut + pow10(p)) as nat
    } else {
        (v - cut) as nat
    }
}

/// The character of one decimal digit.
pub open spec fn digit_char(d: int) -> char
    recommends
        0 <= d < 10,
{
    if d == 0 {
        '0'
    } else if d == 1 {
        '1'
    } else if d == 2 {
        '2'
    } else if d == 3 {
        '3'
    } else if d == 4 {
        '4'
    } else if d == 5 {
        '5'
    } else if d == 6 {
        '6'
    } else if d == 7 {
        '7'
    } else if d == 8 {
        '8'
    } else {
        '9'
    }
}

/// The decimal digits of a natural number, most significant first, without leading zeros.
pub open spec fn decimal(n: nat) -> Seq<char>
    decreases n,
{
    if n < 10 {
        seq![digit_char(n as int)]
    } else {
        decimal(n / 10).push(digit_char((n % 10) as int))
    }
}

/// Whether every element is a decimal digit.
pub open spec fn all_digits(digits: Seq<u8>) -> bool {
    forall|i: int| 0 <= i < digits.len() ==> #[trigger] digits[i] < 10
}

/// The natural number whose decimal digits are `digits`, the lowest first.
pub open spec fn digits_value(digits: Seq<u8>) -> nat
    decreases digits.len(),
{
    if digits.len() == 0 {
        0
    } else {
        digits[0] as nat + 10 * digits_value(digits.drop_first())
    }
}

/// The value of the digits from place `i` on; nothing beyond the last.
pub open spec fn tail_value(digits: Seq<u8>, i: int) -> nat {
    if 0 <= i < digits.len() {
        digits_value(digits.subrange(i, digits.len() as int))
    } else {
        0
    }
}

/// The digit at place `i`; zero beyond the last.
pub open spec fn digit_at(digits: Seq<u8>, i: int) -> nat {
    if 0 <= i < digits.len() {
        digits[i] as nat
    } else {
        0
    }
}

/// The characters of `digits`, the highest first.
pub open spec fn digits_text(digits: Seq<u8>) -> Seq<char>
    decreases digits.len(),
{
    if digits.len() == 0 {
        Seq::empty()
    } else {
        digits_text(digits.drop_first()).push(digit_char(digits[0] as int))
    }
}

pub proof fn lemma_tail_step(digits: Seq<u8>, i: int)
    requires
        0 <= i,
    ensures
        tail_value(digits, i) == digit_at(digits, i) + 10 * tail_value(digits, i + 1),
        tail_value(digits, 0) == digits_value(digits),
{
    if i < digits.len() {
        let tail = digits.subrange(i, digits.len() as int);
        assert(tail.drop_first() =~= digits.subrange(i + 1, digits.len() as int));
        if i + 1 == digits.len() {
            assert(digits_value(tail.drop_first()) == 0);
        }
    }
    assert(digits.subrange(0, digits.len() as int) =~= digits);
}

pub proof fn lemma_pow10_pos(p: nat)
    ensures
        pow10(p) > 0,
    decreases p,
{
    if p > 0 {
        lemma_pow10_pos((p - 1) as nat);
    }
}

/// The value of digits set after one another.
pub proof fn lemma_value_concat(low: Seq<u8>, high: Seq<u8>)
    ensures
        digits_value(low + high) == digits_value(low) + pow10(low.len()) * digits_value(high),
    decreases low.len(),
{
    if low.len() == 0 {
        assert(low + high =~= high);
        assert(pow10(0) * digits_value(high) == digits_value(high)) by (nonlinear_arith)
            requires
                pow10(0) == 1,
        ;
    } else {
        let all = low + high;
        assert(all.drop_first() =~= low.drop_first() + high);
        assert(all[0] == low[0]);
        lemma_value_concat(low.drop_first(), high);
        let rest = pow10((low.len() - 1) as nat);
        let h = digits_value(high);
        assert(pow10(low.len()) == 10 * rest);
        assert(10 * (rest * h) == (10 * rest) * h) by (nonlinear_arith);
        assert(digits_value(all) == all[0] as nat + 10 * digits_value(all.drop_first()));
        assert(digits_value(low) == low[0] as nat + 10 * digits_value(low.drop_first()));
    }
}

/// Digits make a number below ten to the power of their count.
pub proof fn lemma_value_bound(digits: Seq<u8>)
    requires
        all_digits(digits),
    ensures
        digits_value(digits) < pow10(digits.len()),
    decreases digits.len(),
{
    if digits.len() > 0 {
        let rest = digits.drop_first();
        assert(all_digits(rest)) by {
            assert forall|i: int| 0 <= i < rest.len() implies #[trigger] rest[i] < 10 by {
                assert(rest[i] == digits[i + 1]);
            }
        }
        lemma_value_bound(rest);
    }
}

/// Cutting digits in two cuts their value by a power of ten.
pub proof fn lemma_value_split(digits: Seq<u8>, p: int)
    requires
        all_digits(digits),
        0 <= p <= digits.len(),
    ensures
        digits_value(digits.subrange(0, p)) == digits_value(digits) % pow10(p as nat),
        digits_value(digits.subrange(p, digits.len() as int)) == digits_value(digits) / pow10(
            p as nat,
        ),
{
    let low = digits.subrange(0, p);
    let high = digits.subrange(p, digits.len() as int);
    assert(low + high =~= digits);
    lemma_value_concat(low, high);
    lemma_value_bound(low);
    lemma_pow10_pos(p as nat);
    let t = pow10(p as nat);
    assert(digits_value(high) * t == t * digits_value(high)) by (nonlinear_arith);
    lemma_fundamental_div_mod_converse(
        digits_value(digits) as int,
        t as int,
        digits_value(high) as int,
        digits_value(low) as int,
    );
}

/// Digits without a leading zero are the decimal text of their value.
pub proof fn lemma_digits_text(digits: Seq<u8>)
    requires
        all_digits(digits),
        digits.len() > 0,
        digits.last() != 0,
    ensures
        digits_text(digits) == decimal(digits_value(digits)),
        digits_value(digits) > 0,
    decreases digits.len(),
{
    let rest = digits.drop_first();
    if rest.len() == 0 {
        assert(digits_text(rest) =~= Seq::<char>::empty());
        assert(digits_value(rest) == 0);
        assert(digits_text(digits) =~= seq![digit_char(digits[0] as int)]);
    } else {
        assert(rest.last() == digits.last());
        assert(all_digits(rest)) by {
            assert forall|i: int| 0 <= i < rest.len() implies #[trigger] rest[i] < 10 by {
                assert(rest[i] == digits[i + 1]);
            }
        }
        lemma_digits_text(rest);
        let n = digits_value(digits);
        assert(n / 10 == digits_value(rest) && n % 10 == digits[0]) by {
            lemma_fundamental_div_mod_converse(
                n as int,
                10,
                digits_value(rest) as int,
                digits[0] as int,
            );
        }
    }
}

/// Appends to `out` the digits of the sum of what `a` and `b` have from place `i` on, plus
/// `carry`.
pub(crate) fn add_into(a: &Vec<u8>, b: &Vec<u8>, i: usize, carry: u8, out: &mut Vec<u8>)
    requires
        carry <= 1,
        all_digits(a@),
        all_digits(b@),
        i <= a.len() || i <= b.len(),
    ensures
        final(out)@.len() >= old(out)@.len(),
        final(out)@.subrange(0, old(out)@.len() as int) == old(out)@,
        ({
            let added = final(out)@.subrange(old(out)@.len() as int, final(out)@.len() as int);
            &&& all_digits(added)
            &&& digits_value(added) == tail_value(a@, i as int) + tail_value(b@, i as int) + carry
        }),
    decreases
            (if a.len() > b.len() {
                a.len()
            } else {
                b.len()
            }) - i,
{
    let ghost start = out@;
    proof {
        lemma_tail_step(a@, i as int);
        lemma_tail_step(b@, i as int);
    }
    if i >= a.len() && i >= b.len() {
        if carry > 0 {
            out.push(carry);
            let ghost added = out@.subrange(start.len() as int, out@.len() as int);
            assert(added =~= seq![carry]);
            assert(added.drop_first() =~= Seq::<u8>::empty());
            assert(digits_value(added.drop_first()) == 0);
            assert(out@.subrange(0, start.len() as int) =~= start);
        } else {
            let ghost added = out@.subrange(start.len() as int, out@.len() as int);
            assert(added =~= Seq::<u8>::empty());
            assert(out@.subrange(0, start.len() as int) =~= start);
        }
    } else {
        let da: u8 = if i < a.len() {
            a[i]
        } else {
            0
        };
        let db: u8 = if i < b.len() {
            b[i]
        } else {
            0
        };
        let sum: u8 = da + db + carry;
        let digit: u8 = sum % 10;
        out.push(digit);
        let ghost mid = out@;
        add_into(a, b, i + 1, sum / 10, out);
        proof {
            let added = out@.subrange(start.len() as int, out@.len() as int);
            let inner = out@.subrange(mid.len() as int, out@.len() as int);
            assert(out@.subrange(0, mid.len() as int) == mid);
            assert(added[0] == digit) by {
                assert(out@.subrange(0, mid.len() as int)[start.len() as int] == digit);
            }
            assert(added.drop_first() =~= inner);
            assert(out@.subrange(0, start.len() as int) =~= start) by {
                assert forall|k: int| 0 <= k < start.len() implies out@[k] == start[k] by {
                    assert(out@.subrange(0, mid.len() as int)[k] == mid[k]);
                }
            }
            assert(all_digits(added)) by {
                assert forall|k: int| 0 <= k < added.len() implies #[trigger] added[k] < 10 by {
                    if k > 0 {
                        assert(added[k] == inner[k - 1]);
                    }
                }
            }
            assert(digits_value(added) == added[0] as nat + 10 * digits_value(added.drop_first()));
        }
    }
}

/// The digits of the sum of two numbers.
pub(crate) fn add_digits(a: &Vec<u8>, b: &Vec<u8>) -> (sum: Vec<u8>)
    requires
        all_digits(a@),
        all_digits(b@),
    ensures
        all_digits(sum@),
        digits_value(sum@) == digits_value(a@) + digits_value(b@),
{
    let mut sum: Vec<u8> = Vec::new();
    add_into(a, b, 0, 0, &mut sum);
    proof {
        assert(sum@.subrange(0, sum@.len() as int) =~= sum@);
        lemma_tail_step(a@, 0);
        lemma_tail_step(b@, 0);
    }
    sum
}

/// How the numbers of two digit rows compare from place `i` on: -1 where the first is
/// smaller, 0 where they are equal, 1 where the first is larger.
pub(crate) fn compare_from(a: &Vec<u8>, b: &Vec<u8>, i: usize) -> (order: i8)
    requires
        all_digits(a@),
        all_digits(b@),
        i <= a.len() || i <= b.len(),
    ensures
        -1 <= order <= 1,
        (order == -1) == (tail_value(a@, i as int) < tail_value(b@, i as int)),
        (order == 0) == (tail_value(a@, i as int) == tail_value(b@, i as int)),
    decreases
            (if a.len() > b.len() {
                a.len()
            } else {
                b.len()
            }) - i,
{
    proof {
        lemma_tail_step(a@, i as int);
        lemma_tail_step(b@, i as int);
    }
    if i >= a.len() && i >= b.len() {
        0
    } else {
        let higher = compare_from(a, b, i + 1);
        if higher != 0 {
            higher
        } else {
            let da: u8 = if i < a.len() {
                a[i]
            } else {
                0
            };
            let db: u8 = if i < b.len() {
                b[i]
            } else {
                0
            };
            if da < db {
                -1
            } else if da == db {
                0
            } else {
                1
            }
        }
    }
}

/// How two numbers compare, as [`compare_from`] says.
pub(crate) fn compare_digits(a: &Vec<u8>, b: &Vec<u8>) -> (order: i8)
    requires
        all_digits(a@),
        all_digits(b@),
    ensures
        -1 <= order <= 1,
        (order == -1) == (digits_value(a@) < digits_value(b@)),
        (order == 0) == (digits_value(a@) == digits_value(b@)),
{
    proof {
        lemma_tail_step(a@, 0);
        lemma_tail_step(b@, 0);
    }
    compare_from(a, b, 0)
}

/// The lowest `p` digits.
pub(crate) fn low_digits(digits: &Vec<u8>, p: usize) -> (low: Vec<u8>)
    requires
        all_digits(digits@),
        p <= digits.len(),
    ensures
        all_digits(low@),
        digits_value(low@) == digits_value(digits@) % pow10(p as nat),
{
    let mut low: Vec<u8> = Vec::new();
    let mut i: usize = 0;
    while i < p
        invariant
            i <= p <= digits.len(),
            low@ == digits@.subrange(0, i as int),
        decreases p - i,
    {
        low.push(digits[i]);
        i = i + 1;
        assert(low@ =~= digits@.subrange(0, i as int));
    }
    proof {
        lemma_value_split(digits@, p as int);
    }
    low
}

/// The digits with the lowest `p` of them made zero.
pub(crate) fn clear_low(digits: &Vec<u8>, p: usize) -> (high: Vec<u8>)
    requires
        all_digits(digits@),
        p <= digits.len(),
    ensures
        all_digits(high@),
        digits_value(high@) == digits_value(digits@) - digits_value(digits@) % pow10(p as nat),
        high.len() == digits.len(),
        p < digits.len() ==> high@.last() == digits@.last(),
{
    let mut high: Vec<u8> = Vec::new();
    let mut i: usize = 0;
    while i < digits.len()
        invariant
            i <= digits.len(),
            p <= digits.len(),
            high.len() == i,
            forall|k: int| 0 <= k < i ==> high[k] == if k < p {
                0u8
            } else {
                digits[k]
            },
        decreases digits.len() - i,
    {
        high.push(
            if i < p {
                0
            } else {
                digits[i]
            },
        );
        i = i + 1;
    }
    proof {
        let zeros = high@.subrange(0, p as int);
        let kept = high@.subrange(p as int, high.len() as int);
        assert(kept =~= digits@.subrange(p as int, digits.len() as int));
        assert(zeros + kept =~= high@);
        lemma_zeros(zeros);
        lemma_value_concat(zeros, kept);
        lemma_value_split(digits@, p as int);
        lemma_pow10_pos(p as nat);
        let t = pow10(p as nat);
        let v = digits_value(digits@);
        vstd::arithmetic::div_mod::lemma_fundamental_div_mod(v as int, t as int);
    }
    high
}

/// Zeros make nothing.
pub proof fn lemma_zeros(zeros: Seq<u8>)
    requires
        forall|k: int| 0 <= k < zeros.len() ==> zeros[k] == 0,
    ensures
        digits_value(zeros) == 0,
    decreases zeros.len(),
{
    if zeros.len() > 0 {
        lemma_zeros(zeros.drop_first());
    }
}

/// The digits of ten to the power `p`.
pub(crate) fn power_of_ten(p: usize) -> (digits: Vec<u8>)
    ensures
        all_digits(digits@),
        digits_value(digits@) == pow10(p as nat),
        digits.len() > 0,
        digits@.last() == 1,
{
    let mut digits: Vec<u8> = Vec::new();
    let mut i: usize = 0;
    while i < p
        invariant
            i <= p,
            digits.len() == i,
            forall|k: int| 0 <= k < i ==> digits[k] == 0,
        decreases p - i,
    {
        digits.push(0);
        i = i + 1;
    }
    let ghost zeros = digits@;
    digits.push(1);
    proof {
        let one = seq![1u8];
        assert(digits@ =~= zeros + one);
        lemma_zeros(zeros);
        lemma_value_concat(zeros, one);
        assert(one.drop_first() =~= Seq::<u8>::empty());
        assert(digits_value(one.drop_first()) == 0);
        assert(digits_value(one) == 1);
        assert(zeros.len() == p);
        assert(pow10(p as nat) * 1 == pow10(p as nat)) by (nonlinear_arith);
    }
    digits
}

/// The digits without the zeros at their high end.
pub(crate) fn trimmed(digits: &Vec<u8>) -> (short: Vec<u8>)
    requires
        all_digits(digits@),
    ensures
        all_digits(short@),
        digits_value(short@) == digits_value(digits@),
        short.len() > 0 ==> short@.last() != 0,
{
    let mut end: usize = digits.len();
    proof {
        assert(digits@.subrange(0, end as int) =~= digits@);
    }
    while end > 0 && digits[end - 1] == 0
        invariant
            end <= digits.len(),
            all_digits(digits@),
            digits_value(digits@.subrange(0, end as int)) == digits_value(digits@),
        decreases end,
    {
        proof {
            let shorter = digits@.subrange(0, end - 1);
            let zero = seq![0u8];
            assert(digits@.subrange(0, end as int) =~= shorter + zero);
            lemma_value_concat(shorter, zero);
            lemma_zeros(zero);
            assert(pow10(shorter.len()) * 0 == 0) by (nonlinear_arith);
        }
        end = end - 1;
    }
    let mut short: Vec<u8> = Vec::new();
    let mut i: usize = 0;
    while i < end
        invariant
            i <= end <= digits.len(),
            short@ == digits@.subrange(0, i as int),
        decreases end - i,
    {
        short.push(digits[i]);
        i = i + 1;
        assert(short@ =~= digits@.subrange(0, i as int));
    }
    short
}

/// The text of one decimal digit.
pub(crate) fn digit_text(d: u8) -> (text: &'static str)
    requires
        d < 10,
    ensures
        text@ == seq![digit_char(d as int)],
{
    proof {
        reveal_strlit("0");
        reveal_strlit("1");
        reveal_strlit("2");
        reveal_strlit("3");
        reveal_strlit("4");
        reveal_strlit("5");
        reveal_strlit("6");
        reveal_strlit("7");
        reveal_strlit("8");
        reveal_strlit("9");
    }
    let text = if d == 0 {
        "0"
    } else if d == 1 {
        "1"
    } else if d == 2 {
        "2"
    } else if d == 3 {
        "3"
    } else if d == 4 {
        "4"
    } else if d == 5 {
        "5"
    } else if d == 6 {
        "6"
    } else if d == 7 {
        "7"
    } else if d == 8 {
        "8"
    } else {
        "9"
    };
    assert(text@ =~= seq![digit_char(d as int)]);
    text
}

/// Appends to `text` the decimal text of the number that `digits` make.
pub(crate) fn push_digits(text: &mut String, digits: &Vec<u8>)
    requires
        all_digits(digits@),
    ensures
        final(text)@ == old(text)@ + decimal(digits_value(digits@)),
{
    let short = trimmed(digits);
    let ghost start = text@;
    if short.len() == 0 {
        proof {
            reveal_strlit("0");
            reveal_with_fuel(decimal, 2);
        }
        assert("0"@ =~= seq!['0']);
        assert(decimal(0) =~= seq!['0']);
        text.append("0");
        return;
    }
    let mut i: usize = short.len();
    proof {
        lemma_digits_text(short@);
        assert(short@.subrange(i as int, short.len() as int) =~= Seq::<u8>::empty());
        assert(start + Seq::<char>::empty() =~= start);
    }
    while i > 0
        invariant
            i <= short.len(),
            all_digits(short@),
            text@ == start + digits_text(short@.subrange(i as int, short.len() as int)),
        decreases i,
    {
        i = i - 1;
        proof {
            let tail = short@.subrange(i as int, short.len() as int);
            assert(tail.drop_first() =~= short@.subrange(i + 1, short.len() as int));
            assert(tail[0] == short[i as int]);
        }
        let ghost before = text@;
        text.append(digit_text(short[i]));
        assert(text@ =~= before.push(digit_char(short[i as int] as int)));
    }
    assert(short@.subrange(0, short.len() as int) =~= short@);
}

/// Appends to `out` the digits of twice the number that `digits` has from place `i` on, plus
/// `carry`.
pub(crate) fn double_into(digits: &Vec<u8>, i: usize, carry: u8, out: &mut Vec<u8>)
    requires
        i <= digits.len(),
        carry <= 1,
        all_digits(digits@),
        digits.len() > 0 ==> digits@.last() != 0,
    ensures
        final(out)@.len() >= old(out)@.len(),
        final(out)@.subrange(0, old(out)@.len() as int) == old(out)@,
        ({
            let added = final(out)@.subrange(old(out)@.len() as int, final(out)@.len() as int);
            &&& all_digits(added)
            &&& digits_value(added) == 2 * digits_value(
                digits@.subrange(i as int, digits.len() as int),
            ) + carry
            &&& added.len() > 0 ==> added.last() != 0
            &&& (i < digits.len() || carry > 0) ==> added.len() > 0
        }),
    decreases digits.len() - i,
{
    let ghost start = out@;
    let ghost tail = digits@.subrange(i as int, digits.len() as int);
    if i == digits.len() {
        assert(tail =~= Seq::<u8>::empty());
        if carry > 0 {
            out.push(carry);
            let ghost added = out@.subrange(start.len() as int, out@.len() as int);
            assert(added =~= seq![carry]);
            assert(added.drop_first() =~= Seq::<u8>::empty());
            assert(digits_value(added.drop_first()) == 0);
            assert(out@.subrange(0, start.len() as int) =~= start);
        } else {
            let ghost added = out@.subrange(start.len() as int, out@.len() as int);
            assert(added =~= Seq::<u8>::empty());
            assert(out@.subrange(0, start.len() as int) =~= start);
        }
    } else {
        let twice: u8 = 2 * digits[i] + carry;
        let digit: u8 = twice % 10;
        out.push(digit);
        let ghost mid = out@;
        double_into(digits, i + 1, twice / 10, out);
        proof {
            let added = out@.subrange(start.len() as int, out@.len() as int);
            let inner = out@.subrange(mid.len() as int, out@.len() as int);
            assert(out@.subrange(0, mid.len() as int) == mid);
            assert(added[0] == digit) by {
                assert(out@.subrange(0, mid.len() as int)[start.len() as int] == digit);
            }
            assert(added.drop_first() =~= inner);
            assert(tail.drop_first() =~= digits@.subrange(i + 1, digits.len() as int));
            assert(tail[0] == digits[i as int]);
            assert(out@.subrange(0, start.len() as int) =~= start) by {
                assert forall|k: int| 0 <= k < start.len() implies out@[k] == start[k] by {
                    assert(out@.subrange(0, mid.len() as int)[k] == mid[k]);
                }
            }
            assert(all_digits(added)) by {
                assert forall|k: int| 0 <= k < added.len() implies #[trigger] added[k] < 10 by {
                    if k > 0 {
                        assert(added[k] == inner[k - 1]);
                    }
                }
            }
            if inner.len() == 0 {
                assert(i + 1 == digits.len() && twice / 10 == 0);
                assert(digits[i as int] == digits@.last());
                assert(added.last() == digit);
            } else {
                assert(added.last() == inner.last());
            }
        }
    }
}

/// The decimal digits of `significand * 2^exponent`, the lowest first.
pub(crate) fn decimal_digits(significand: u64, exponent: u32) -> (digits: Vec<u8>)
    requires
        significand > 0,
    ensures
        all_digits(digits@),
        digits.len() > 0,
        digits@.last() != 0,
        digits_value(digits@) == significand * pow2(exponent as nat),
{
    let mut digits = binary_digits(significand);
    let mut i: u32 = 0;
    proof {
        lemma_significand_constants();
        assert(significand * pow2(0) == significand) by (nonlinear_arith)
            requires
                pow2(0) == 1,
        ;
    }
    while i < exponent
        invariant
            i <= exponent,
            all_digits(digits@),
            digits.len() > 0,
            digits@.last() != 0,
            digits_value(digits@) == significand * pow2(i as nat),
        decreases exponent - i,
    {
        let mut next: Vec<u8> = Vec::new();
        double_into(&digits, 0, 0, &mut next);
        proof {
            assert(next@.subrange(0, next@.len() as int) =~= next@);
            assert(digits@.subrange(0, digits.len() as int) =~= digits@);
            lemma_pow2_unfold((i + 1) as nat);
            assert(significand * (2 * pow2(i as nat)) == 2 * (significand * pow2(i as nat)))
                by (nonlinear_arith);
        }
        digits = next;
        i = i + 1;
    }
    digits
}

/// The decimal digits of `n`, the lowest first; none for zero.
pub(crate) fn binary_digits(n: u64) -> (digits: Vec<u8>)
    ensures
        all_digits(digits@),
        n > 0 ==> digits.len() > 0,
        digits.len() > 0 ==> digits@.last() != 0,
        digits_value(digits@) == n,
    decreases n,
{
    if n == 0 {
        let digits: Vec<u8> = Vec::new();
        assert(digits@ =~= Seq::<u8>::empty());
        digits
    } else {
        let half = binary_digits(n / 2);
        let mut digits: Vec<u8> = Vec::new();
        double_into(&half, 0, (n % 2) as u8, &mut digits);
        proof {
            assert(digits@.subrange(0, digits@.len() as int) =~= digits@);
            assert(half@.subrange(0, half.len() as int) =~= half@);
        }
        digits
    }
}

/// Whether a number with `p` trailing zeros, below or above, reads back as `v`.
pub open spec fn reads_back(v: nat, reach: Reach, p: nat) -> bool {
    reads_back_below(v, reach, p) || reads_back_above(v, reach, p)
}

/// Where the search for trailing zeros ends, a number with that many reads back, unless the
/// search ended where it began.
pub proof fn lemma_most_zeros(v: nat, reach: Reach, p: nat)
    ensures
        most_zeros(v, reach, p) >= p,
        most_zeros(v, reach, p) == p || reads_back(v, reach, most_zeros(v, reach, p)),
    decreases 400 - p,
{
    if !(p >= 400 || !reads_back(v, reach, p + 1)) {
        lemma_most_zeros(v, reach, p + 1);
    }
}

/// Within half a unit of an integer there is no other integer: a number that reads back only
/// from that near is written with all its digits.
pub proof fn lemma_unit_reach(v: nat)
    requires
        reach(v).above == 1,
        reach(v).below == 1,
    ensures
        shortest(v) == v,
{
    let reach = reach(v);
    let p = most_zeros(v, reach, 0);
    lemma_most_zeros(v, reach, 0);
    lemma_pow10_pos(p);
    let t = pow10(p);
    let cut = v % t;
    vstd::arithmetic::div_mod::lemma_mod_pos_bound(v as int, t as int);
    if p == 0 {
        assert(pow10(0) == 1);
    }
}

/// A power of ten beyond the digits of `v` is too far from `v` to read back as it.
pub proof fn lemma_beyond_digits(v: nat, reach: Reach, count: nat)
    requires
        0 < v < pow10(count),
        reach.below <= reach.above <= v,
    ensures
        !reads_back(v, reach, count + 1),
{
    let t = pow10(count + 1);
    assert(t == 10 * pow10(count));
    lemma_small_mod(v, t);
}

/// What the parts of a double say of its reach.
pub proof fn lemma_reach(significand: nat, exponent: nat)
    requires
        canonical(significand, exponent),
    ensures
        ({
            let r = reach(significand * pow2(exponent));
            &&& r.above == pow2(exponent)
            &&& r.below == if exponent >= 1 && significand == SIGNIFICAND_FLOOR {
                pow2((exponent - 1) as nat)
            } else {
                pow2(exponent)
            }
            &&& r.closed == (significand % 2 == 0)
            &&& r.below <= r.above
            &&& significand > 0 ==> r.above <= significand * pow2(exponent)
        }),
{
    lemma_canonical_is_exact(significand, exponent);
    lemma_scaled_division(significand, 1, exponent);
    lemma_pow2_pos(exponent);
    let unit = pow2(exponent);
    assert(1 * unit == unit && (significand > 0 ==> significand * unit >= unit))
        by (nonlinear_arith);
    if exponent >= 1 {
        lemma_pow2_unfold(exponent);
    }
}

/// Whether the number below `v` with `p` trailing zeros reads back as `v`, and whether the
/// one above does.
fn reads_back_at(
    digits: &Vec<u8>,
    p: usize,
    down_half: &Vec<u8>,
    exact_only: bool,
    up_half: &Vec<u8>,
    closed: bool,
    Ghost(reach): Ghost<Reach>,
) -> (both: (bool, bool))
    requires
        all_digits(digits@),
        all_digits(down_half@),
        all_digits(up_half@),
        p <= digits.len(),
        closed == reach.closed,
        reach.above == 2 * digits_value(up_half@),
        exact_only ==> reach.below == 1,
        !exact_only ==> reach.below == 2 * digits_value(down_half@),
    ensures
        both.0 == reads_back_below(digits_value(digits@), reach, p as nat),
        both.1 == reads_back_above(digits_value(digits@), reach, p as nat),
{
    let cut = low_digits(digits, p);
    let power = power_of_ten(p);
    proof {
        lemma_pow10_pos(p as nat);
        vstd::arithmetic::div_mod::lemma_mod_pos_bound(
            digits_value(digits@) as int,
            pow10(p as nat) as int,
        );
    }
    let below = if exact_only {
        let nothing: Vec<u8> = Vec::new();
        assert(digits_value(nothing@) == 0);
        compare_digits(&cut, &nothing) == 0
    } else {
        let order = compare_digits(&cut, down_half);
        order == -1 || (closed && order == 0)
    };
    let reached = add_digits(&cut, up_half);
    let order = compare_digits(&power, &reached);
    let above = order == -1 || (closed && order == 0);
    (below, above)
}

/// The digits, the lowest first, of the number with the most trailing zeros that reads back
/// as the double of the given parts.
pub(crate) fn shortest_digits(significand: u64, exponent: u32) -> (digits: Vec<u8>)
    requires
        canonical(significand as nat, exponent as nat),
    ensures
        all_digits(digits@),
        digits_value(digits@) == shortest((significand * pow2(exponent as nat)) as nat),
{
    let ghost v = (significand * pow2(exponent as nat)) as nat;
    let ghost reach = reach(v);
    proof {
        lemma_significand_constants();
        lemma_reach(significand as nat, exponent as nat);
    }
    if significand == 0 || exponent == 0 {
        proof {
            lemma_unit_reach(v);
            assert(significand * pow2(0) == significand) by (nonlinear_arith)
                requires
                    pow2(0) == 1,
            ;
            assert(0 * pow2(exponent as nat) == 0) by (nonlinear_arith);
        }
        return binary_digits(significand);
    }
    let digits = decimal_digits(significand, exponent);
    let up_half = decimal_digits(1, exponent - 1);
    let narrow = significand == SIGNIFICAND_FLOOR;
    let exact_only = narrow && exponent == 1;
    let down_half = if narrow && exponent >= 2 {
        decimal_digits(1, exponent - 2)
    } else {
        decimal_digits(1, exponent - 1)
    };
    let closed = significand % 2 == 0;
    proof {
        lemma_pow2_unfold(exponent as nat);
        if exponent >= 2 {
            lemma_pow2_unfold((exponent - 1) as nat);
        }
        assert(1 * pow2((exponent - 1) as nat) == pow2((exponent - 1) as nat)) by (nonlinear_arith);
        if exponent >= 2 {
            assert(1 * pow2((exponent - 2) as nat) == pow2((exponent - 2) as nat))
                by (nonlinear_arith);
        }
        lemma_value_bound(digits@);
    }
    let mut p: usize = 0;
    let mut going = true;
    while going && p < digits.len() && p < 400
        invariant
            p <= digits.len(),
            p <= 400,
            all_digits(digits@),
            all_digits(down_half@),
            all_digits(up_half@),
            digits_value(digits@) == v,
            closed == reach.closed,
            reach.above == 2 * digits_value(up_half@),
            exact_only ==> reach.below == 1,
            !exact_only ==> reach.below == 2 * digits_value(down_half@),
            most_zeros(v, reach, 0) == most_zeros(v, reach, p as nat),
            !going ==> !reads_back(v, reach, (p + 1) as nat),
        decreases
                (if going {
                    1int
                } else {
                    0int
                }),
                digits.len() - p,
    {
        let both = reads_back_at(
            &digits,
            p + 1,
            &down_half,
            exact_only,
            &up_half,
            closed,
            Ghost(reach),
        );
        if both.0 || both.1 {
            p = p + 1;
        } else {
            going = false;
        }
    }
    proof {
        if going && p < 400 {
            lemma_beyond_digits(v, reach, digits.len() as nat);
        }
        assert(most_zeros(v, reach, p as nat) == p);
    }
    let both = reads_back_at(&digits, p, &down_half, exact_only, &up_half, closed, Ghost(reach));
    let cut = low_digits(&digits, p);
    let power = power_of_ten(p);
    let twice = add_digits(&cut, &cut);
    let lower = clear_low(&digits, p);
    if both.1 && (!both.0 || compare_digits(&twice, &power) >= 0) {
        add_digits(&lower, &power)
    } else {
        lower
    }
}

} // verus!
