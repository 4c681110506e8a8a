//! What the arithmetic is for: each operation gives the number nearest to the exact result.
//!
//! The exact results are integers, in units of 2^-1074, and a number is nearest where no finite
//! number of the format is nearer; of two that are equally near it is the one with the even bit
//! pattern.
use crate::binary64::{Binary64, NOT_A_NUMBER, SIGN};
use crate::order::{lemma_of, lemma_order_of_values};
use crate::rounding::{
    lemma_rounded, lemma_rounded_is, lemma_units_increase, lemma_units_split, lemma_units_step,
    rounded, rounds_to, units, BINADE, INFINITE, UNIT_EXPONENT,
};
use vstd::arithmetic::power2::{lemma_pow2_pos, pow2};
use vstd::prelude::*;

verus! {

/// How far two values are apart.
pub open spec fn gap(a: int, b: int) -> int {
    if a < b {
        b - a
    } else {
        a - b
    }
}

/// No finite number is nearer to `num / den` than `x` is, and none is as near, unless `x` has an
/// even bit pattern.
pub open spec fn is_nearest(num: int, den: nat, x: Binary64) -> bool {
    &&& x.is_finite()
    &&& forall|y: Binary64| #[trigger]
        y.is_finite() ==> gap(den * x.value(), num) <= gap(den * y.value(), num)
    &&& forall|y: Binary64| #[trigger]
        y.is_finite() && y.value() != x.value() && gap(den * x.value(), num) == gap(
            den * y.value(),
            num,
        ) ==> x.bits % 2 == 0
}

/// A number is its bit pattern: a sign bit, eleven bits of exponent and fifty-two of fraction. All
/// exponent bits set make an infinity or, with a fraction, what is no number; none set make a
/// fraction without the leading one.
pub proof fn law_format(x: Binary64)
    ensures
        ({
            let sign = x.bits / 0x8000_0000_0000_0000;
            let exponent = (x.bits / 0x0010_0000_0000_0000) % 0x800;
            let fraction = x.bits % 0x0010_0000_0000_0000;
            let size = if exponent == 0 {
                fraction as int
            } else {
                (0x0010_0000_0000_0000 + fraction) * pow2((exponent - 1) as nat)
            };
            &&& x.negative() <==> sign == 1
            &&& x.is_nan() <==> exponent == 0x7ff && fraction != 0
            &&& x.is_infinite() <==> exponent == 0x7ff && fraction == 0
            &&& x.is_finite() <==> exponent < 0x7ff
            &&& x.is_finite() ==> x.value() == if sign == 1 {
                -size
            } else {
                size
            }
        }),
{
    let b: u64 = x.bits;
    let m: u64 = (b % SIGN) as u64;
    let e: u64 = (b / BINADE) % 0x800;
    let f: u64 = b % BINADE;
    assert(m / 0x0010_0000_0000_0000 == e && m % 0x0010_0000_0000_0000 == f) by (bit_vector)
        requires
            m == b % 0x8000_0000_0000_0000u64,
            e == (b / 0x0010_0000_0000_0000u64) % 0x800u64,
            f == b % 0x0010_0000_0000_0000u64,
    ;
    assert(m == e * 0x0010_0000_0000_0000 + f);
}

/// The order is that of the values; an infinity is beyond every finite number, on the side of its
/// sign, and nothing is below or above what is not a number.
pub proof fn law_order(a: Binary64, b: Binary64)
    ensures
        a.is_nan() || b.is_nan() ==> !a.lt(b),
        a.is_finite() && b.is_finite() ==> (a.lt(b) <==> a.value() < b.value()),
        a.is_finite() && b.is_infinite() ==> (a.lt(b) <==> !b.negative()),
        a.is_infinite() && b.is_finite() ==> (a.lt(b) <==> a.negative()),
        a.is_infinite() && b.is_infinite() ==> (a.lt(b) <==> a.negative() && !b.negative()),
{
    if a.is_finite() && b.is_finite() {
        lemma_order_of_values(a, b);
    }
}

/// The larger of two numbers is one of them and below neither; the first of two that are equal,
/// and the other one where one is not a number.
pub proof fn law_larger(a: Binary64, b: Binary64)
    ensures
        a.larger(b) == a || a.larger(b) == b,
        !a.larger(b).lt(a) && !a.larger(b).lt(b),
        a.lt(b) ==> a.larger(b) == b,
        !a.is_nan() && !b.is_nan() && !a.lt(b) ==> a.larger(b) == a,
        a.is_nan() ==> a.larger(b) == b,
        !a.is_nan() && b.is_nan() ==> a.larger(b) == a,
{
}

/// The magnitude that a value is rounded to is the nearest one.
proof fn lemma_nearest(num: nat, den: nat, m: nat, k: nat)
    requires
        den > 0,
        rounds_to(num, den, m),
        m < INFINITE,
        k < INFINITE,
    ensures
        gap(den * units(m) as int, num as int) <= gap(den * units(k) as int, num as int),
        k != m && gap(den * units(m) as int, num as int) == gap(den * units(k) as int, num as int)
            ==> m % 2 == 0,
{
    let (um, uk): (nat, nat) = (units(m), units(k));
    if k > m {
        let next: nat = units(m + 1);
        lemma_units_step(m);
        if k > m + 1 {
            lemma_units_increase(m + 1, k);
        }
        assert(den * (um + next) == den * um + den * next) by (nonlinear_arith);
        assert(den * um < den * next && den * next <= den * uk) by (nonlinear_arith)
            requires
                den > 0,
                um < next,
                next <= uk,
        ;
    } else if k < m {
        let before: nat = units((m - 1) as nat);
        lemma_units_step((m - 1) as nat);
        if k < m - 1 {
            lemma_units_increase(k, (m - 1) as nat);
        }
        assert(den * (before + um) == den * before + den * um) by (nonlinear_arith);
        assert(den * before < den * um && den * uk <= den * before) by (nonlinear_arith)
            requires
                den > 0,
                before < um,
                uk <= before,
        ;
    }
}

/// The two magnitudes at the upper end of the finite ones.
proof fn lemma_upper_end()
    ensures
        units((INFINITE - 1) as nat) + units(INFINITE as nat) == 0x3f_ffff_ffff_ffff * pow2(2045),
{
    let b: nat = BINADE as nat;
    lemma_units_split(2045, (2 * b - 1) as nat);
    lemma_units_split(2045, 2 * b);
    assert(2045 * b + 2 * b == INFINITE);
    let p: nat = pow2(2045);
    assert((2 * b - 1) * p + (2 * b) * p == (4 * b - 1) * p) by (nonlinear_arith);
}

/// A rounded magnitude, with a sign, is nearest to the value with that sign; it is infinite from
/// half a step above the largest finite number on.
proof fn lemma_rounded_nearest(num: nat, den: nat, negative: bool)
    requires
        den > 0,
    ensures
        ({
            let x = Binary64::of(negative, rounded(num, den));
            let v = if negative {
                -(num as int)
            } else {
                num as int
            };
            &&& !x.is_nan()
            &&& x.negative() == negative
            &&& x.is_infinite() <==> 2 * num >= den * (0x3f_ffff_ffff_ffff * pow2(2045))
            &&& x.is_finite() ==> is_nearest(v, den, x)
        }),
{
    let m: nat = rounded(num, den);
    lemma_rounded(num, den);
    lemma_of(negative, m);
    let x: Binary64 = Binary64::of(negative, m);
    let v: int = if negative {
        -(num as int)
    } else {
        num as int
    };
    lemma_upper_end();
    if m < INFINITE && 2 * num >= den * (0x3f_ffff_ffff_ffff * pow2(2045)) {
        // Then the value is not below the middle of the two at the upper end.
        let top: nat = (INFINITE - 1) as nat;
        let sum: nat = (units(top) + units(INFINITE as nat)) as nat;
        lemma_units_step(m);
        if m < top {
            lemma_units_increase(m, top);
            lemma_units_increase(m + 1, INFINITE as nat);
            assert(den * (units(m) + units(m + 1)) < den * sum) by (nonlinear_arith)
                requires
                    den > 0,
                    units(m) + units(m + 1) < sum,
            ;
        }
        assert(top % 2 == 1);
    }
    if m < INFINITE {
        assert(units(0) == 0);
        assert(den * 0 == 0) by (nonlinear_arith);
        assert(x.bits % 2 == m % 2);
        assert forall|y: Binary64| #[trigger] y.is_finite() implies gap(den * x.value(), v) <= gap(
            den * y.value(),
            v,
        ) && (y.value() != x.value() && gap(den * x.value(), v) == gap(den * y.value(), v)
            ==> x.bits % 2 == 0) by {
            let k: nat = y.magnitude();
            lemma_nearest(num, den, m, k);
            lemma_nearest(num, den, m, 0);
            let (um, uk): (int, int) = (units(m) as int, units(k) as int);
            assert(den * (-um) == -(den * um) && den * (-uk) == -(den * uk)) by (nonlinear_arith);
            assert(den * uk > 0 || uk == 0) by (nonlinear_arith)
                requires
                    den > 0,
                    uk >= 0,
            ;
            if uk == 0 {
                if k > 0 {
                    lemma_units_increase(0, k);
                }
            }
        }
    }
}

/// The sum of two finite numbers is the number nearest to the sum of their values, with the sign of
/// that sum, or infinite where it is half a step above the largest finite number or more. A sum of
/// nothing is negative only where both terms are. An infinite term makes an infinite sum, and two
/// opposite ones, or a term that is no number, make no number.
pub proof fn law_sum(a: Binary64, b: Binary64)
    ensures
        a.is_finite() && b.is_finite() ==> {
            let v = a.value() + b.value();
            let r = a.sum(b);
            &&& !r.is_nan()
            &&& v != 0 ==> (r.negative() <==> v < 0)
            &&& v == 0 ==> (r.negative() <==> a.negative() && b.negative())
            &&& r.is_infinite() <==> 2 * gap(v, 0) >= 0x3f_ffff_ffff_ffff * pow2(2045)
            &&& r.is_finite() ==> is_nearest(v, 1, r)
        },
        a.is_infinite() && (b.is_finite() || (b.is_infinite() && a.negative() == b.negative()))
            ==> a.sum(b) == a,
        b.is_infinite() && a.is_finite() ==> a.sum(b) == b,
        a.is_infinite() && b.is_infinite() && a.negative() != b.negative() ==> a.sum(b).is_nan(),
        a.is_nan() || b.is_nan() ==> a.sum(b).is_nan(),
{
    assert(Binary64 { bits: NOT_A_NUMBER }.is_nan());
    if a.is_finite() && b.is_finite() {
        let v: int = a.value() + b.value();
        lemma_pow2_pos(2045);
        if v == 0 {
            assert(units(0) == 0);
            lemma_units_step(0);
            assert(1 * (units(0) + units(1)) > 0);
            lemma_rounded_is(0, 1, 0);
            lemma_rounded_nearest(0, 1, a.negative() && b.negative());
        } else if v < 0 {
            lemma_rounded_nearest((-v) as nat, 1, true);
        } else {
            lemma_rounded_nearest(v as nat, 1, false);
        }
    }
}

/// The product of two finite numbers is the number nearest to the product of their values, or
/// infinite where that is half a step above the largest finite number or more; its sign is that of
/// the factors together. An infinite factor makes an infinite product, but none with zero.
pub proof fn law_product(a: Binary64, b: Binary64)
    ensures
        a.is_finite() && b.is_finite() ==> {
            let v = a.value() * b.value();
            let r = a.product(b);
            &&& !r.is_nan()
            &&& r.negative() <==> a.negative() != b.negative()
            &&& r.is_infinite() <==> 2 * gap(v, 0) >= pow2(1074) * (0x3f_ffff_ffff_ffff * pow2(
                2045,
            ))
            &&& r.is_finite() ==> is_nearest(v, pow2(1074), r)
        },
        (a.is_infinite() && b.is_finite() && b.value() != 0) || (b.is_infinite() && a.is_finite()
            && a.value() != 0) || (a.is_infinite() && b.is_infinite()) ==> a.product(
            b,
        ).is_infinite() && (a.product(b).negative() <==> a.negative() != b.negative()),
        (a.is_infinite() && b.value() == 0 && b.is_finite()) || (b.is_infinite() && a.value() == 0
            && a.is_finite()) ==> a.product(b).is_nan(),
        a.is_nan() || b.is_nan() ==> a.product(b).is_nan(),
{
    assert(Binary64 { bits: NOT_A_NUMBER }.is_nan());
    assert(units(0) == 0);
    let negative: bool = a.negative() != b.negative();
    lemma_of(negative, INFINITE as nat);
    if a.magnitude() > 0 {
        lemma_units_increase(0, a.magnitude());
    }
    if b.magnitude() > 0 {
        lemma_units_increase(0, b.magnitude());
    }
    if a.is_finite() && b.is_finite() {
        let (ua, ub): (nat, nat) = (units(a.magnitude()), units(b.magnitude()));
        lemma_pow2_pos(UNIT_EXPONENT as nat);
        lemma_rounded_nearest(ua * ub, pow2(UNIT_EXPONENT as nat), negative);
        assert(a.value() * b.value() == if negative {
            -(ua * ub as int)
        } else {
            ua * ub as int
        }) by (nonlinear_arith)
            requires
                a.value() == if a.negative() {
                    -(ua as int)
                } else {
                    ua as int
                },
                b.value() == if b.negative() {
                    -(ub as int)
                } else {
                    ub as int
                },
                negative == (a.negative() != b.negative()),
        ;
        assert(ua * ub >= 0) by (nonlinear_arith);
    }
}

/// The number made of a natural number is the one nearest to it, and is not negative.
pub proof fn law_natural(n: nat)
    ensures
        ({
            let r = Binary64::of_natural(n);
            &&& !r.is_nan()
            &&& !r.negative()
            &&& r.is_infinite() <==> 2 * (n * pow2(1074)) >= 0x3f_ffff_ffff_ffff * pow2(2045)
            &&& r.is_finite() ==> is_nearest((n * pow2(1074)) as int, 1, r)
        }),
{
    let v: nat = n * pow2(UNIT_EXPONENT as nat);
    lemma_rounded_nearest(v, 1, false);
}

/// Where a number with the exact value exists, the nearest number has that value.
pub proof fn lemma_exact_is_nearest(num: int, den: nat, x: Binary64, y: Binary64)
    requires
        den > 0,
        is_nearest(num, den, x),
        y.is_finite(),
        den * y.value() == num,
    ensures
        x.value() == y.value(),
{
    assert(gap(den * x.value(), num) <= gap(den * y.value(), num));
    assert(x.value() == y.value()) by (nonlinear_arith)
        requires
            den > 0,
            den * x.value() == den * y.value(),
    ;
}

} // verus!
