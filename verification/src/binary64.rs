//! IEEE 754 binary64 numbers, held by their bit pattern and computed with in integers.
use crate::rounding::{
    lemma_rounded_is, lemma_units_increase, lemma_units_split, lemma_units_step,
    power_of_two, round_scaled, rounded, rounds_to, units, BINADE, INFINITE, UNIT_EXPONENT,
};
use vstd::arithmetic::power2::{
    lemma2_to64, lemma2_to64_rest, lemma_pow2_adds, lemma_pow2_pos, lemma_pow2_strictly_increases, pow2,
};
use vstd::prelude::*;

verus! {

/// The sign bit.
pub const SIGN: u64 = 0x8000_0000_0000_0000;

/// The bit pattern that stands for every result that is not a number.
pub const NOT_A_NUMBER: u64 = 0x7ff8_0000_0000_0000;

/// An IEEE 754 binary64 number, held by its bit pattern.
#[derive(Clone, Copy, Debug)]
pub struct Binary64 {
    /// The sign, exponent and fraction fields, from the highest bit down.
    pub bits: u64,
}

impl Binary64 {
    /// The bit pattern without the sign bit.
    pub open spec fn magnitude(self) -> nat {
        (self.bits % SIGN) as nat
    }

    /// The sign bit is set.
    pub open spec fn negative(self) -> bool {
        self.bits >= SIGN
    }

    pub open spec fn is_nan(self) -> bool {
        self.magnitude() > INFINITE
    }

    pub open spec fn is_infinite(self) -> bool {
        self.magnitude() == INFINITE
    }

    pub open spec fn is_finite(self) -> bool {
        self.magnitude() < INFINITE
    }

    /// The number with this sign and magnitude.
    pub open spec fn of(negative: bool, magnitude: nat) -> Binary64 {
        Binary64 { bits: (if negative { SIGN + magnitude } else { magnitude as int }) as u64 }
    }

    /// The value of a finite number, in units of 2^-1074.
    pub open spec fn value(self) -> int {
        if self.negative() {
            -units(self.magnitude())
        } else {
            units(self.magnitude()) as int
        }
    }

    /// The place of a number in the order of numbers; the two zeros share one.
    pub open spec fn rank(self) -> int {
        if self.negative() {
            -self.magnitude()
        } else {
            self.magnitude() as int
        }
    }

    /// `self < other`, which never holds where one of them is not a number.
    pub open spec fn lt(self, other: Binary64) -> bool {
        !self.is_nan() && !other.is_nan() && self.rank() < other.rank()
    }

    /// `self + other`, rounded to nearest.
    pub open spec fn sum(self, other: Binary64) -> Binary64 {
        if self.is_nan() || other.is_nan() {
            Binary64 { bits: NOT_A_NUMBER }
        } else if self.is_infinite() && other.is_infinite() && self.negative() != other.negative() {
            Binary64 { bits: NOT_A_NUMBER }
        } else if self.is_infinite() {
            self
        } else if other.is_infinite() {
            other
        } else {
            let v = self.value() + other.value();
            if v == 0 {
                Binary64::of(self.negative() && other.negative(), 0)
            } else if v < 0 {
                Binary64::of(true, rounded((-v) as nat, 1))
            } else {
                Binary64::of(false, rounded(v as nat, 1))
            }
        }
    }

    /// `self * other`, rounded to nearest.
    pub open spec fn product(self, other: Binary64) -> Binary64 {
        let negative = self.negative() != other.negative();
        if self.is_nan() || other.is_nan() {
            Binary64 { bits: NOT_A_NUMBER }
        } else if self.is_infinite() || other.is_infinite() {
            if self.magnitude() == 0 || other.magnitude() == 0 {
                Binary64 { bits: NOT_A_NUMBER }
            } else {
                Binary64::of(negative, INFINITE as nat)
            }
        } else {
            Binary64::of(
                negative,
                rounded(
                    units(self.magnitude()) * units(other.magnitude()),
                    pow2(UNIT_EXPONENT as nat),
                ),
            )
        }
    }

    /// A natural number, rounded to nearest.
    pub open spec fn of_natural(n: nat) -> Binary64 {
        Binary64::of(false, rounded(n * pow2(UNIT_EXPONENT as nat), 1))
    }

    /// The larger of two numbers; what is not a number is passed over where the other is one.
    pub open spec fn larger(self, other: Binary64) -> Binary64 {
        if self.is_nan() {
            other
        } else if other.is_nan() {
            self
        } else if self.lt(other) {
            other
        } else {
            self
        }
    }

    fn signed(negative: bool, magnitude: u64) -> (r: Binary64)
        requires
            magnitude <= INFINITE,
        ensures
            r == Binary64::of(negative, magnitude as nat),
    {
        Binary64 { bits: if negative { SIGN + magnitude } else { magnitude } }
    }

    /// The digits and the exponent of a finite magnitude.
    fn split(magnitude: u64) -> (r: (u64, u32))
        requires
            magnitude < INFINITE,
        ensures
            units(magnitude as nat) == r.0 as nat * pow2(r.1 as nat),
            magnitude == r.1 * BINADE + r.0,
            r.0 < 2 * BINADE,
            r.1 == 0 || r.0 >= BINADE,
            r.1 <= 2045,
    {
        if magnitude < BINADE {
            proof {
                lemma_units_split(0, magnitude as nat);
            }
            (magnitude, 0)
        } else {
            let e: u64 = magnitude / BINADE - 1;
            let q: u64 = BINADE + magnitude % BINADE;
            proof {
                lemma_units_split(e as nat, q as nat);
            }
            (q, e as u32)
        }
    }

    /// Whether this is not a number.
    pub fn not_a_number(self) -> (r: bool)
        ensures
            r == self.is_nan(),
    {
        self.bits % SIGN > INFINITE
    }

    /// `self < other`.
    pub fn less_than(self, other: Binary64) -> (r: bool)
        ensures
            r == self.lt(other),
    {
        let (a, b): (u64, u64) = (self.bits % SIGN, other.bits % SIGN);
        if a > INFINITE || b > INFINITE {
            return false;
        }
        if self.bits >= SIGN {
            if other.bits >= SIGN {
                a > b
            } else {
                a > 0 || b > 0
            }
        } else {
            other.bits < SIGN && a < b
        }
    }

    /// The larger of two numbers.
    pub fn max(self, other: Binary64) -> (r: Binary64)
        ensures
            r == self.larger(other),
    {
        if self.not_a_number() {
            other
        } else if self.less_than(other) {
            other
        } else {
            self
        }
    }

    /// The number nearest to `n`.
    pub fn from_usize(n: usize) -> (r: Binary64)
        ensures
            r == Binary64::of_natural(n as nat),
    {
        let m: u64 = round_scaled(n as u128, UNIT_EXPONENT, 0);
        proof {
            lemma2_to64();
            lemma_rounded_is(n as nat * pow2(UNIT_EXPONENT as nat), 1, m as nat);
        }
        Binary64::signed(false, m)
    }

    /// `self * other`.
    pub fn times(self, other: Binary64) -> (r: Binary64)
        ensures
            r == self.product(other),
    {
        let (a, b): (u64, u64) = (self.bits % SIGN, other.bits % SIGN);
        let negative: bool = (self.bits >= SIGN) != (other.bits >= SIGN);
        if a > INFINITE || b > INFINITE {
            return Binary64 { bits: NOT_A_NUMBER };
        }
        if a == INFINITE || b == INFINITE {
            return if a == 0 || b == 0 {
                Binary64 { bits: NOT_A_NUMBER }
            } else {
                Binary64::signed(negative, INFINITE)
            };
        }
        let (qa, ea): (u64, u32) = Binary64::split(a);
        let (qb, eb): (u64, u32) = Binary64::split(b);
        assert(qa as u128 * qb as u128 <= 0x1f_ffff_ffff_ffffu128 * 0x1f_ffff_ffff_ffffu128) by (nonlinear_arith)
            requires
                qa <= 0x1f_ffff_ffff_ffff,
                qb <= 0x1f_ffff_ffff_ffff,
        ;
        let digits: u128 = qa as u128 * qb as u128;
        let m: u64 = round_scaled(digits, ea + eb, UNIT_EXPONENT);
        proof {
            lemma_pow2_pos(UNIT_EXPONENT as nat);
            lemma_pow2_adds(ea as nat, eb as nat);
            assert((qa as nat * pow2(ea as nat)) * (qb as nat * pow2(eb as nat)) == digits as nat * pow2(
                (ea + eb) as nat,
            )) by (nonlinear_arith)
                requires
                    digits == qa * qb,
                    pow2((ea + eb) as nat) == pow2(ea as nat) * pow2(eb as nat),
            ;
            lemma_rounded_is(
                units(a as nat) * units(b as nat),
                pow2(UNIT_EXPONENT as nat),
                m as nat,
            );
        }
        Binary64::signed(negative, m)
    }

    /// `self + other`.
    pub fn plus(self, other: Binary64) -> (r: Binary64)
        ensures
            r == self.sum(other),
    {
        let (a, b): (u64, u64) = (self.bits % SIGN, other.bits % SIGN);
        let same: bool = (self.bits >= SIGN) == (other.bits >= SIGN);
        if a > INFINITE || b > INFINITE || (a == INFINITE && b == INFINITE && !same) {
            return Binary64 { bits: NOT_A_NUMBER };
        }
        if a == INFINITE {
            return self;
        }
        if b == INFINITE {
            return other;
        }
        if a == b && !same {
            return Binary64 { bits: 0 };
        }
        if a < b {
            proof {
                lemma_units_increase(a as nat, b as nat);
            }
            other.plus_smaller(self)
        } else {
            proof {
                if b < a {
                    lemma_units_increase(b as nat, a as nat);
                }
            }
            self.plus_smaller(other)
        }
    }

    /// `self + other`, where `other` is of the smaller magnitude.
    fn plus_smaller(self, other: Binary64) -> (r: Binary64)
        requires
            self.is_finite(),
            other.magnitude() <= self.magnitude(),
            other.magnitude() == self.magnitude() ==> self.negative() == other.negative(),
        ensures
            r == self.sum(other),
    {
        let (a, b): (u64, u64) = (self.bits % SIGN, other.bits % SIGN);
        let negative: bool = self.bits >= SIGN;
        let same: bool = negative == (other.bits >= SIGN);
        proof {
            lemma2_to64();
            assert(units(0) == 0);
            if b < a {
                lemma_units_increase(b as nat, a as nat);
            }
            if b > 0 {
                lemma_units_increase(0, b as nat);
            }
        }
        if a == 0 {
            return self;
        }
        let (qa, ea): (u64, u32) = Binary64::split(a);
        let (qb, eb): (u64, u32) = Binary64::split(b);
        let ghost exact: nat = if same {
            units(a as nat) + units(b as nat)
        } else {
            (units(a as nat) - units(b as nat)) as nat
        };
        assert(eb <= ea) by (nonlinear_arith)
            requires
                a == ea * BINADE + qa,
                b == eb * BINADE + qb,
                b <= a,
                qa < 2 * BINADE,
                BINADE == 0x0010_0000_0000_0000,
                eb == 0 || qb >= BINADE,
        ;
        let gap: u32 = ea - eb;
        if gap >= 56 {
            proof {
                lemma_negligible(a as nat, ea as nat, qa as nat, eb as nat, qb as nat, exact);
                lemma_rounded_is(exact, 1, a as nat);
            }
            return self;
        }
        let scale: u128 = power_of_two(gap);
        proof {
            lemma2_to64_rest();
            lemma_pow2_pos(gap as nat);
            if gap < 55 {
                lemma_pow2_strictly_increases(gap as nat, 55);
            }
            assert(qa as nat * scale as nat <= 0x1f_ffff_ffff_ffff * 0x80_0000_0000_0000) by (nonlinear_arith)
                requires
                    qa <= 0x1f_ffff_ffff_ffff,
                    scale <= 0x80_0000_0000_0000,
            ;
            lemma_pow2_adds(gap as nat, eb as nat);
            lemma_pow2_pos(eb as nat);
            let pb: nat = pow2(eb as nat);
            assert(qa as nat * pow2(ea as nat) == (qa as nat * scale as nat) * pb) by (nonlinear_arith)
                requires
                    pow2(ea as nat) == scale as nat * pb,
            ;
            assert(!same ==> qa as nat * scale as nat >= qb) by (nonlinear_arith)
                requires
                    !same ==> (qa as nat * scale as nat) * pb >= qb as nat * pb,
                    pb > 0,
            ;
        }
        let wide: u128 = qa as u128 * scale;
        let digits: u128 = if same { wide + qb as u128 } else { wide - qb as u128 };
        let m: u64 = round_scaled(digits, eb, 0);
        proof {
            let pb: nat = pow2(eb as nat);
            assert(digits as nat * pb == exact) by (nonlinear_arith)
                requires
                    exact == (if same { wide * pb + qb * pb } else { wide * pb - qb * pb }),
                    digits == (if same { wide + qb } else { wide - qb }),
            ;
            lemma_rounded_is(exact, 1, m as nat);
        }
        Binary64::signed(negative, m)
    }
}

/// A number changes nothing when it is added to, or taken from, one that is 2^56 times its size.
proof fn lemma_negligible(a: nat, ea: nat, qa: nat, eb: nat, qb: nat, exact: nat)
    requires
        a == ea * BINADE + qa,
        a < INFINITE,
        qa < 2 * BINADE,
        qa >= BINADE,
        qb < 2 * BINADE,
        ea >= eb + 56,
        units(a) == qa * pow2(ea),
        exact == units(a) + qb * pow2(eb) || exact == units(a) - qb * pow2(eb),
    ensures
        rounds_to(exact, 1, a),
{
    let b: nat = BINADE as nat;
    let (pa, pb): (nat, nat) = (pow2(ea), pow2(eb));
    let small: nat = qb * pb;
    lemma2_to64_rest();
    lemma_pow2_pos(eb);
    lemma_pow2_adds(56, eb);
    if eb + 56 < ea {
        lemma_pow2_strictly_increases(eb + 56, ea);
    }
    assert(8 * small < pa) by (nonlinear_arith)
        requires
            small == qb * pb,
            qb < 0x20_0000_0000_0000nat,
            pb > 0,
            pa >= 0x100_0000_0000_0000nat * pb,
    ;
    lemma_units_step(a);
    lemma_units_step((a - 1) as nat);
    assert(a / b == ea + 1) by (nonlinear_arith)
        requires
            a == ea * b + qa,
            b == 0x0010_0000_0000_0000nat,
            b <= qa < 2 * b,
    ;
    let below: nat = (a - 1) as nat;
    assert(below / b >= ea && below >= b) by (nonlinear_arith)
        requires
            below == ea * b + qa - 1,
            b == 0x0010_0000_0000_0000nat,
            b <= qa < 2 * b,
            ea >= 1,
    ;
    let step: nat = pow2((below / b - 1) as nat);
    lemma_pow2_adds(1, (ea - 1) as nat);
    lemma2_to64();
    if below / b > ea {
        lemma_pow2_strictly_increases((ea - 1) as nat, (below / b - 1) as nat);
    }
    assert(2 * step >= pa);
}

} // verus!
