//! Rounded arithmetic respects the order of numbers.
use crate::binary64::{Binary64, NOT_A_NUMBER, SIGN};
use crate::rounding::{
    lemma_rounded, lemma_rounded_is, lemma_rounds_to_monotone, lemma_units_increase,
    lemma_units_split, lemma_units_step, rounded, units, BINADE, INFINITE, UNIT_EXPONENT,
};
use vstd::arithmetic::power2::{
    lemma2_to64, lemma2_to64_rest, lemma_pow2_adds, lemma_pow2_pos, pow2,
};
use vstd::prelude::*;

verus! {

/// The number built from a sign and a magnitude has them.
pub proof fn lemma_of(negative: bool, m: nat)
    requires
        m <= INFINITE,
    ensures
        Binary64::of(negative, m).magnitude() == m,
        Binary64::of(negative, m).negative() == negative,
        !Binary64::of(negative, m).is_nan(),
{
}

/// A magnitude's own value is rounded to that magnitude.
pub proof fn lemma_exact(m: nat)
    requires
        m < INFINITE,
    ensures
        rounded(units(m), 1) == m,
{
    lemma_units_step(m);
    if m > 0 {
        lemma_units_step((m - 1) as nat);
    }
    lemma_rounded_is(units(m), 1, m);
}

/// Rounding keeps the order of values.
pub proof fn lemma_rounded_monotone(num1: nat, num2: nat, den: nat)
    requires
        den > 0,
        num1 <= num2,
    ensures
        rounded(num1, den) <= rounded(num2, den) <= INFINITE,
{
    lemma_rounded(num1, den);
    lemma_rounded(num2, den);
    lemma_rounds_to_monotone(num1, num2, den, rounded(num1, den), rounded(num2, den));
}

/// The order of finite numbers is the order of their values.
pub proof fn lemma_order_of_values(a: Binary64, b: Binary64)
    requires
        a.is_finite(),
        b.is_finite(),
    ensures
        a.lt(b) <==> a.value() < b.value(),
        a.rank() <= b.rank() <==> a.value() <= b.value(),
{
    let (m, n): (nat, nat) = (a.magnitude(), b.magnitude());
    assert(units(0) == 0);
    if m > 0 {
        lemma_units_increase(0, m);
    }
    if n > 0 {
        lemma_units_increase(0, n);
    }
    if m < n {
        lemma_units_increase(m, n);
    }
    if n < m {
        lemma_units_increase(n, m);
    }
}

/// The rank that an exact value is rounded to.
pub open spec fn rounded_rank(v: int) -> int {
    if v < 0 {
        -(rounded((-v) as nat, 1) as int)
    } else {
        rounded(v as nat, 1) as int
    }
}

proof fn lemma_rounded_rank_monotone(v: int, w: int)
    requires
        v <= w,
    ensures
        rounded_rank(v) <= rounded_rank(w),
{
    if v < 0 {
        lemma_rounded_monotone(0, (-v) as nat, 1);
    }
    if w < 0 {
        lemma_rounded_monotone((-w) as nat, (-v) as nat, 1);
    } else {
        lemma_rounded_monotone(0, w as nat, 1);
        if v >= 0 {
            lemma_rounded_monotone(v as nat, w as nat, 1);
        }
    }
}

/// The rank of a sum of finite numbers.
proof fn lemma_rank_of_sum(a: Binary64, b: Binary64)
    requires
        a.is_finite(),
        b.is_finite(),
    ensures
        a.sum(b).rank() == rounded_rank(a.value() + b.value()),
        !a.sum(b).is_nan(),
        -INFINITE <= a.sum(b).rank() <= INFINITE,
{
    let v: int = a.value() + b.value();
    lemma_exact(0);
    assert(units(0) == 0);
    if v < 0 {
        lemma_rounded_monotone(0, (-v) as nat, 1);
        lemma_of(true, rounded((-v) as nat, 1));
    } else {
        lemma_rounded_monotone(0, v as nat, 1);
        lemma_of(false, rounded(v as nat, 1));
        lemma_of(a.negative() && b.negative(), 0);
    }
}

/// A sum never falls where its terms rise.
pub proof fn lemma_sum_monotone(a: Binary64, b: Binary64, c: Binary64, d: Binary64)
    requires
        a.rank() <= c.rank(),
        b.rank() <= d.rank(),
        !a.sum(b).is_nan(),
        !c.sum(d).is_nan(),
    ensures
        a.sum(b).rank() <= c.sum(d).rank(),
{
    lemma_numbers_only(a, b);
    lemma_numbers_only(c, d);
    if a.is_finite() && b.is_finite() {
        lemma_rank_of_sum(a, b);
    }
    if c.is_finite() && d.is_finite() {
        lemma_rank_of_sum(c, d);
    }
    if a.is_finite() && b.is_finite() && c.is_finite() && d.is_finite() {
        lemma_order_of_values(a, c);
        lemma_order_of_values(b, d);
        lemma_rounded_rank_monotone(a.value() + b.value(), c.value() + d.value());
    }
}

/// A sum or a product is a number only where both operands are.
pub proof fn lemma_numbers_only(a: Binary64, b: Binary64)
    ensures
        !a.sum(b).is_nan() ==> !a.is_nan() && !b.is_nan(),
        !a.product(b).is_nan() ==> !a.is_nan() && !b.is_nan(),
{
    assert(Binary64 { bits: NOT_A_NUMBER }.is_nan());
}

/// The sum of numbers that are not negative is such a number.
pub proof fn lemma_sum_not_negative(a: Binary64, b: Binary64)
    requires
        !a.is_nan(),
        !b.is_nan(),
        a.rank() >= 0,
        b.rank() >= 0,
    ensures
        !a.sum(b).is_nan(),
        a.sum(b).rank() >= 0,
{
    if a.is_finite() && b.is_finite() {
        let zero: Binary64 = Binary64 { bits: 0 };
        assert(units(0) == 0);
        assert(zero.value() == 0 && zero.rank() == 0 && zero.is_finite());
        lemma_rank_of_sum(a, b);
        lemma_order_of_values(zero, a);
        lemma_order_of_values(zero, b);
        lemma_rounded_rank_monotone(0, a.value() + b.value());
        lemma_exact(0);
    }
}

/// The rank of a product of numbers that are not negative.
proof fn lemma_rank_of_product(a: Binary64, b: Binary64)
    requires
        a.rank() >= 0,
        b.rank() >= 0,
        !a.product(b).is_nan(),
    ensures
        a.product(b).rank() == if a.is_infinite() || b.is_infinite() {
            INFINITE as int
        } else {
            rounded(units(a.magnitude()) * units(b.magnitude()), pow2(UNIT_EXPONENT as nat)) as int
        },
        0 <= a.product(b).rank() <= INFINITE,
{
    lemma_numbers_only(a, b);
    let den: nat = pow2(UNIT_EXPONENT as nat);
    lemma_pow2_pos(UNIT_EXPONENT as nat);
    let (ua, ub): (nat, nat) = (units(a.magnitude()), units(b.magnitude()));
    let negative: bool = a.negative() != b.negative();
    lemma_of(negative, INFINITE as nat);
    assert(units(0) == 0);
    if a.is_finite() && b.is_finite() {
        lemma_rounded_monotone(ua * ub, ua * ub, den);
        lemma_of(negative, rounded(ua * ub, den));
        if negative {
            assert(ua * ub == 0) by (nonlinear_arith)
                requires
                    ua == 0 || ub == 0,
            ;
            lemma_rounds_zero(den);
        }
    }
}

/// Zero is rounded to zero.
proof fn lemma_rounds_zero(den: nat)
    requires
        den > 0,
    ensures
        rounded(0, den) == 0,
{
    lemma_units_step(0);
    assert(den * (units(0) + units(1)) > 0) by (nonlinear_arith)
        requires
            den > 0,
            units(1) > 0,
    ;
    lemma_rounded_is(0, den, 0);
}

/// A product of numbers that are not negative is such a number, unless it is zero times infinity.
pub proof fn lemma_product_not_negative(a: Binary64, b: Binary64)
    requires
        !a.is_nan(),
        !b.is_nan(),
        a.rank() >= 0,
        b.rank() >= 0,
    ensures
        a.is_finite() && b.is_finite() ==> !a.product(b).is_nan(),
        a.rank() > 0 && b.rank() > 0 ==> !a.product(b).is_nan(),
        !a.product(b).is_nan() ==> a.product(b).rank() >= 0,
{
    let negative: bool = a.negative() != b.negative();
    lemma_of(negative, INFINITE as nat);
    if a.is_finite() && b.is_finite() {
        let p: nat = units(a.magnitude()) * units(b.magnitude());
        lemma_pow2_pos(UNIT_EXPONENT as nat);
        lemma_rounded_monotone(p, p, pow2(UNIT_EXPONENT as nat));
        lemma_of(negative, rounded(p, pow2(UNIT_EXPONENT as nat)));
    }
    if !a.product(b).is_nan() {
        lemma_rank_of_product(a, b);
    }
}

/// A finite number times zero is zero.
pub proof fn lemma_zero_factor(a: Binary64, b: Binary64)
    requires
        a.is_finite(),
        b.magnitude() == 0,
    ensures
        a.product(b).magnitude() == 0,
{
    let (ua, ub): (nat, nat) = (units(a.magnitude()), units(b.magnitude()));
    assert(units(0) == 0);
    assert(ua * ub == 0) by (nonlinear_arith)
        requires
            ub == 0,
    ;
    lemma_pow2_pos(UNIT_EXPONENT as nat);
    lemma_rounds_zero(pow2(UNIT_EXPONENT as nat));
    lemma_of(a.negative() != b.negative(), 0);
}

/// A product of numbers that are not negative never falls where its factors rise.
pub proof fn lemma_product_monotone(a: Binary64, b: Binary64, c: Binary64, d: Binary64)
    requires
        0 <= a.rank() <= c.rank(),
        0 <= b.rank() <= d.rank(),
        !a.product(b).is_nan(),
        !c.product(d).is_nan(),
    ensures
        0 <= a.product(b).rank() <= c.product(d).rank(),
{
    lemma_numbers_only(a, b);
    lemma_numbers_only(c, d);
    lemma_rank_of_product(a, b);
    lemma_rank_of_product(c, d);
    if c.is_finite() && d.is_finite() {
        let (ua, ub, uc, ud): (nat, nat, nat, nat) = (
            units(a.magnitude()),
            units(b.magnitude()),
            units(c.magnitude()),
            units(d.magnitude()),
        );
        if a.magnitude() < c.magnitude() {
            lemma_units_increase(a.magnitude(), c.magnitude());
        }
        if b.magnitude() < d.magnitude() {
            lemma_units_increase(b.magnitude(), d.magnitude());
        }
        assert(ua * ub <= uc * ud) by (nonlinear_arith)
            requires
                ua <= uc,
                ub <= ud,
        ;
        lemma_pow2_pos(UNIT_EXPONENT as nat);
        lemma_rounded_monotone(ua * ub, uc * ud, pow2(UNIT_EXPONENT as nat));
    }
}

/// The numbers that natural numbers are rounded to are in the same order. One that a machine word
/// holds is finite.
pub proof fn lemma_of_natural(m: nat, n: nat)
    requires
        m <= n,
    ensures
        Binary64::of_natural(m).rank() <= Binary64::of_natural(n).rank(),
        !Binary64::of_natural(n).negative(),
        !Binary64::of_natural(n).is_nan(),
        !Binary64::of_natural(m).negative(),
        !Binary64::of_natural(m).is_nan(),
        n <= u64::MAX ==> Binary64::of_natural(n).is_finite() && Binary64::of_natural(m).is_finite(),
{
    let unit: nat = pow2(UNIT_EXPONENT as nat);
    assert(m * unit <= n * unit) by (nonlinear_arith)
        requires
            m <= n,
    ;
    lemma_rounded_monotone(m * unit, n * unit, 1);
    lemma_of(false, rounded(m * unit, 1));
    lemma_of(false, rounded(n * unit, 1));
    if n <= u64::MAX {
        // 2^64 itself is the value of a finite magnitude.
        let e: nat = 1086;
        let b: nat = BINADE as nat;
        lemma2_to64();
        lemma2_to64_rest();
        lemma_units_split(e, b);
        lemma_pow2_adds(52, e);
        lemma_pow2_adds(64, UNIT_EXPONENT as nat);
        let top: nat = e * b + b;
        assert(units(top) == pow2(64) * unit);
        lemma_exact(top);
        assert(n * unit <= units(top)) by (nonlinear_arith)
            requires
                n <= pow2(64),
                units(top) == pow2(64) * unit,
        ;
        lemma_rounded_monotone(n * unit, units(top), 1);
    }
}

/// The natural number zero is the positive zero.
pub proof fn lemma_natural_zero()
    ensures
        Binary64::of_natural(0) == (Binary64 { bits: 0 }),
{
    assert(0 * pow2(UNIT_EXPONENT as nat) == 0) by (nonlinear_arith);
    lemma_rounds_zero(1);
}

/// A natural number above zero is rounded to a number above zero.
pub proof fn lemma_natural_positive(n: nat)
    requires
        n > 0,
    ensures
        Binary64::of_natural(n).rank() > 0,
{
    let unit: nat = pow2(UNIT_EXPONENT as nat);
    lemma_pow2_pos(UNIT_EXPONENT as nat);
    assert(n * unit >= 1) by (nonlinear_arith)
        requires
            n > 0,
            unit > 0,
    ;
    assert(units(1) == 1);
    lemma_exact(1);
    lemma_rounded_monotone(1, n * unit, 1);
    lemma_of(false, rounded(n * unit, 1));
}

/// Adding zero keeps a number's place, and changes no number but the negative zero.
pub proof fn lemma_sum_with_zero(a: Binary64, zero: Binary64)
    requires
        !a.is_nan(),
        zero.magnitude() == 0,
    ensures
        !a.sum(zero).is_nan(),
        a.sum(zero).rank() == a.rank(),
        a.bits != SIGN ==> a.sum(zero) == a,
{
    assert(units(0) == 0);
    assert(zero.value() == 0);
    lemma_of(a.negative() && zero.negative(), 0);
    if a.is_finite() {
        lemma_exact(a.magnitude());
        if a.magnitude() > 0 {
            lemma_units_increase(0, a.magnitude());
        }
    }
}

/// The larger of two numbers rises with each of them; what is not a number counts for nothing.
pub proof fn lemma_larger_monotone(a: Binary64, b: Binary64, c: Binary64, d: Binary64)
    requires
        a.is_nan() || (!c.is_nan() && a.rank() <= c.rank()),
        b.is_nan() || (!d.is_nan() && b.rank() <= d.rank()),
    ensures
        a.larger(b).is_nan() || (!c.larger(d).is_nan() && a.larger(b).rank() <= c.larger(d).rank()),
{
}

} // verus!
