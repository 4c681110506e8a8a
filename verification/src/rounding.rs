//! Rounding to the binary64 format, stated over integers.
//!
//! A number's *magnitude* is its bit pattern without the sign bit. The finite magnitudes are
//! consecutive integers, in the order of the values they stand for, and every finite value is a
//! whole multiple of 2^-1074. Values are stated here in that unit, so a rounding is a statement
//! about integers: the result is the magnitude whose value is nearest, and the even one of two
//! that are equally near.
use vstd::arithmetic::power2::{
    lemma2_to64, lemma2_to64_rest, lemma_pow2_adds, lemma_pow2_pos, lemma_pow2_strictly_increases,
    lemma_pow2_unfold, pow2,
};
use vstd::prelude::*;

verus! {

/// The number of magnitudes between two powers of two.
pub const BINADE: u64 = 0x0010_0000_0000_0000;

/// The magnitude of the two infinities; every larger magnitude is not a number.
pub const INFINITE: u64 = 0x7ff0_0000_0000_0000;

/// Minus the exponent of the unit that values are stated in.
pub const UNIT_EXPONENT: u32 = 1074;

/// The value of a magnitude, in units of 2^-1074. The magnitude of infinity is given the value
/// that would come next after the largest finite one.
pub open spec fn units(m: nat) -> nat {
    if m < BINADE {
        m
    } else {
        (BINADE as nat + m % BINADE as nat) * pow2((m / BINADE as nat - 1) as nat)
    }
}

/// `m` is the magnitude that the exact value `num / den` (in units) is rounded to: the
/// value lies between the midpoints to the magnitude's two neighbours, and on a midpoint only if
/// the magnitude is even. Values from half a step above the largest finite one become infinite.
pub open spec fn rounds_to(num: nat, den: nat, m: nat) -> bool {
    &&& m <= INFINITE
    &&& m > 0 ==> {
        let middle = den * (units((m - 1) as nat) + units(m));
        2 * num > middle || (2 * num == middle && m % 2 == 0)
    }
    &&& m < INFINITE ==> {
        let middle = den * (units(m) + units(m + 1));
        2 * num < middle || (2 * num == middle && m % 2 == 0)
    }
}

/// The magnitude that `num / den` is rounded to.
pub open spec fn rounded(num: nat, den: nat) -> nat {
    choose|m: nat| rounds_to(num, den, m)
}

/// The exact power-of-two split of a value: `q * 2^e` is the value of magnitude `e * 2^52 + q`.
pub proof fn lemma_units_split(e: nat, q: nat)
    requires
        q <= 2 * BINADE,
        e == 0 || q >= BINADE,
    ensures
        units(e * BINADE as nat + q) == q * pow2(e),
{
    let b: nat = BINADE as nat;
    let m: nat = e * b + q;
    lemma2_to64();
    if m < BINADE {
        assert(e == 0);
        assert(q * pow2(0) == q);
    } else if q == 2 * b {
        assert(m / b == e + 2 && m % b == 0) by (nonlinear_arith)
            requires
                b == 0x0010_0000_0000_0000nat,
                m == e * b + 2 * b,
        ;
        lemma_pow2_unfold((e + 1) as nat);
        assert((b + 0) * pow2((e + 1) as nat) == q * pow2(e)) by (nonlinear_arith)
            requires
                pow2((e + 1) as nat) == 2 * pow2(e),
                q == 2 * b,
        ;
    } else {
        let f: nat = (q - b) as nat;
        assert(m / b == e + 1 && m % b == f) by (nonlinear_arith)
            requires
                b == 0x0010_0000_0000_0000nat,
                m == e * b + b + f,
                f < b,
        ;
    }
}

/// From one magnitude to the next the value grows by the step of the binade.
pub proof fn lemma_units_step(m: nat)
    ensures
        units(m + 1) == units(m) + (if m < BINADE { 1 } else { pow2((m / BINADE as nat - 1) as nat) }),
        units(m + 1) > units(m),
{
    let b: nat = BINADE as nat;
    lemma2_to64();
    if m + 1 < b {
    } else if m < b {
        assert(m + 1 == b);
        lemma_units_split(0, b);
        assert(units(b) == b);
    } else {
        let e: nat = (m / b - 1) as nat;
        let q: nat = (b + m % b) as nat;
        assert(m == e * b + q) by (nonlinear_arith)
            requires
                b == 0x0010_0000_0000_0000nat,
                m >= b,
                e == m / b - 1,
                q == b + m % b,
        ;
        lemma_units_split(e, q);
        lemma_units_split(e, q + 1);
        lemma_pow2_pos(e);
        assert((q + 1) * pow2(e) == q * pow2(e) + pow2(e)) by (nonlinear_arith);
    }
}

/// Values are in the order of their magnitudes.
pub proof fn lemma_units_increase(m: nat, n: nat)
    requires
        m < n,
    ensures
        units(m) < units(n),
    decreases n - m,
{
    lemma_units_step(m);
    if m + 1 < n {
        lemma_units_increase(m + 1, n);
    }
}

/// A value is rounded to one magnitude only, and a larger value never to a smaller magnitude.
pub proof fn lemma_rounds_to_monotone(num1: nat, num2: nat, den: nat, m1: nat, m2: nat)
    requires
        den > 0,
        num1 <= num2,
        rounds_to(num1, den, m1),
        rounds_to(num2, den, m2),
    ensures
        m1 <= m2,
{
    if m2 < m1 {
        let hi: nat = (units((m1 - 1) as nat) + units(m1)) as nat;
        let lo: nat = (units(m2) + units(m2 + 1)) as nat;
        assert(2 * num1 >= den * hi);
        assert(2 * num2 <= den * lo);
        if m2 + 1 < m1 {
            lemma_units_increase(m2, (m1 - 1) as nat);
            lemma_units_increase(m2 + 1, m1);
            assert(den * lo < den * hi) by (nonlinear_arith)
                requires
                    den > 0,
                    lo < hi,
            ;
        } else {
            assert(m1 % 2 == 0 && m2 % 2 == 0);
        }
    }
}

/// `rounded` is the magnitude that `rounds_to` holds of, where there is one.
pub proof fn lemma_rounded_is(num: nat, den: nat, m: nat)
    requires
        den > 0,
        rounds_to(num, den, m),
    ensures
        rounded(num, den) == m,
        rounds_to(num, den, rounded(num, den)),
{
    let r: nat = rounded(num, den);
    assert(rounds_to(num, den, r));
    lemma_rounds_to_monotone(num, num, den, m, r);
    lemma_rounds_to_monotone(num, num, den, r, m);
}

/// A value between two neighbouring magnitudes is rounded to the nearer of them, and half-way to
/// the even one.
proof fn lemma_round_between(num: nat, den: nat, m: nat)
    requires
        den > 0,
        m < INFINITE,
        den * units(m) <= num < den * units(m + 1),
    ensures
        ({
            let middle = den * (units(m) + units(m + 1));
            if 2 * num > middle || (2 * num == middle && m % 2 == 1) {
                rounds_to(num, den, m + 1)
            } else {
                rounds_to(num, den, m)
            }
        }),
{
    let u0: nat = units(m);
    let u1: nat = units(m + 1);
    lemma_units_step(m);
    if m > 0 {
        let below: nat = units((m - 1) as nat);
        lemma_units_step((m - 1) as nat);
        assert(den * (below + u0) < 2 * num) by (nonlinear_arith)
            requires
                den > 0,
                below < u0,
                den * u0 <= num,
        ;
    }
    let above: nat = units(m + 2);
    lemma_units_step(m + 1);
    assert(den * (u1 + above) > 2 * num) by (nonlinear_arith)
        requires
            den > 0,
            u1 < above,
            num < den * u1,
    ;
}

/// A value from the first infinite magnitude up is rounded to infinity.
proof fn lemma_round_overflow(num: nat, den: nat)
    requires
        den > 0,
        num >= den * units(INFINITE as nat),
    ensures
        rounds_to(num, den, INFINITE as nat),
{
    let top: nat = units(INFINITE as nat);
    let below: nat = units((INFINITE - 1) as nat);
    lemma_units_step((INFINITE - 1) as nat);
    assert(2 * num > den * (below + top)) by (nonlinear_arith)
        requires
            den > 0,
            below < top,
            num >= den * top,
    ;
}

/// Every value has a magnitude that it is rounded to.
pub proof fn lemma_rounded(num: nat, den: nat)
    requires
        den > 0,
    ensures
        rounds_to(num, den, rounded(num, den)),
{
    assert(units(0) == 0);
    assert(den * 0 == 0) by (nonlinear_arith);
    lemma_round_from(num, den, 0);
}

/// A search upwards from a magnitude that is not above the value finds the one to round to.
proof fn lemma_round_from(num: nat, den: nat, m: nat)
    requires
        den > 0,
        m <= INFINITE,
        den * units(m) <= num,
    ensures
        rounds_to(num, den, rounded(num, den)),
    decreases INFINITE - m,
{
    if m == INFINITE {
        lemma_round_overflow(num, den);
        lemma_rounded_is(num, den, INFINITE as nat);
    } else if num < den * units(m + 1) {
        lemma_round_between(num, den, m);
        if rounds_to(num, den, m) {
            lemma_rounded_is(num, den, m);
        } else {
            lemma_rounded_is(num, den, m + 1);
        }
    } else {
        lemma_round_from(num, den, m + 1);
    }
}

/// Shifting one left by `e` gives 2^`e`.
proof fn lemma_one_shifted(e: u128)
    requires
        e < 128,
    ensures
        (1u128 << e) == pow2(e as nat),
    decreases e,
{
    lemma2_to64();
    if e == 0 {
        assert(1u128 << 0u128 == 1) by (bit_vector);
    } else {
        let d: u128 = (e - 1) as u128;
        lemma_one_shifted(d);
        lemma_pow2_unfold(e as nat);
        assert(1u128 << e == 2 * (1u128 << d)) by (bit_vector)
            requires
                0 < e < 128,
                d == e - 1,
        ;
    }
}

/// 2^`e`.
pub(crate) fn power_of_two(e: u32) -> (r: u128)
    requires
        e < 128,
    ensures
        r == pow2(e as nat),
{
    proof {
        lemma_one_shifted(e as u128);
    }
    1u128 << e
}

/// The number of binary digits of a positive `x`.
fn bit_length_64(x: u64) -> (l: u32)
    requires
        x > 0,
    ensures
        1 <= l <= 64,
        pow2((l - 1) as nat) <= x < pow2(l as nat),
{
    let z: u32 = x.leading_zeros();
    proof {
        vstd::std_specs::bits::axiom_u64_leading_zeros(x);
        lemma2_to64();
        let k: u64 = (63 - z) as u64;
        let top: u64 = x >> k;
        assert(top & 1 != 0 ==> top >= 1) by (bit_vector);
        vstd::bits::lemma_u64_shr_is_div(x, k);
        lemma_pow2_pos(k as nat);
        let p: nat = pow2(k as nat);
        assert(x >= p) by (nonlinear_arith)
            requires
                x as nat / p >= 1,
                p > 0,
        ;
        if z > 0 {
            let n: u64 = (64 - z) as u64;
            vstd::bits::lemma_u64_shr_is_div(x, n);
            lemma_pow2_pos(n as nat);
            let w: nat = pow2(n as nat);
            assert(x < w) by (nonlinear_arith)
                requires
                    x as nat / w == 0,
                    w > 0,
            ;
        }
    }
    64 - z
}

/// The number of binary digits of a positive `m`.
fn bit_length(m: u128) -> (l: u32)
    requires
        m > 0,
    ensures
        1 <= l <= 128,
        pow2((l - 1) as nat) <= m < pow2(l as nat),
{
    let high: u64 = (m >> 64u128) as u64;
    proof {
        lemma2_to64();
        vstd::bits::lemma_u128_shr_is_div(m, 64);
        assert(m >> 64u128 <= 0xffff_ffff_ffff_ffff) by (bit_vector);
    }
    if high > 0 {
        let l: u32 = bit_length_64(high);
        proof {
            let b: nat = pow2(64);
            let lo: nat = pow2((l - 1) as nat);
            let hi: nat = pow2(l as nat);
            lemma_pow2_adds(64, (l - 1) as nat);
            lemma_pow2_adds(64, l as nat);
            assert(64 + (l - 1) as nat == (l + 64 - 1) as nat);
            assert(64 + l as nat == (l + 64) as nat);
            assert(b * lo <= m && m < b * hi) by (nonlinear_arith)
                requires
                    b > 0,
                    high == m as nat / b,
                    lo <= high < hi,
            ;
        }
        l + 64
    } else {
        bit_length_64(m as u64)
    }
}

/// The rounding of `m * 2^up / 2^down` by its leading digits `q`: `t` digits are left off, with
/// the value `rest`.
proof fn lemma_round_shifted(m: nat, up: nat, down: nat, e: nat, t: nat, q: nat, rest: nat)
    requires
        q < 2 * BINADE,
        e == 0 || q >= BINADE,
        e < 2046,
        e + down == up + t,
        m == q * pow2(t) + rest,
        rest < pow2(t),
    ensures
        ({
            let r = if 2 * rest > pow2(t) || (2 * rest == pow2(t) && q % 2 == 1) {
                e * BINADE as nat + q + 1
            } else {
                e * BINADE as nat + q
            };
            rounds_to(m * pow2(up), pow2(down), r)
        }),
{
    let b: nat = BINADE as nat;
    let (pu, pd, pe, pt): (nat, nat, nat, nat) = (pow2(up), pow2(down), pow2(e), pow2(t));
    lemma_pow2_pos(up);
    lemma_pow2_pos(down);
    lemma_pow2_pos(e);
    lemma_pow2_pos(t);
    lemma_pow2_adds(e, down);
    lemma_pow2_adds(up, t);
    let mag: nat = e * b + q;
    lemma_units_split(e, q);
    lemma_units_split(e, q + 1);
    assert(mag + 1 == e * b + (q + 1));
    assert(mag < INFINITE);
    let num: nat = m * pu;
    let u0: nat = q * pe;
    let u1: nat = (q + 1) * pe;
    assert(pd * u0 == q * pt * pu) by (nonlinear_arith)
        requires
            u0 == q * pe,
            pe * pd == pu * pt,
    ;
    assert(pd * u1 == (q + 1) * pt * pu) by (nonlinear_arith)
        requires
            u1 == (q + 1) * pe,
            pe * pd == pu * pt,
    ;
    assert(q * pt * pu <= num && num < (q + 1) * pt * pu) by (nonlinear_arith)
        requires
            num == m * pu,
            m == q * pt + rest,
            rest < pt,
            pu > 0,
    ;
    lemma_round_between(num, pd, mag);
    assert(pd * (u0 + u1) == pd * u0 + pd * u1) by (nonlinear_arith);
    assert(2 * num - (q * pt * pu + (q + 1) * pt * pu) == (2 * rest - pt) * pu) by (nonlinear_arith)
        requires
            num == m * pu,
            m == q * pt + rest,
    ;
    let gap: int = 2 * rest - pt;
    assert((gap > 0 ==> gap * pu > 0) && (gap == 0 ==> gap * pu == 0) && (gap < 0 ==> gap * pu < 0))
        by (nonlinear_arith)
        requires
            pu > 0,
    ;
    assert(mag % 2 == q % 2) by (nonlinear_arith)
        requires
            mag == e * b + q,
            b == 0x0010_0000_0000_0000nat,
    ;
}

/// A value of too many digits is rounded to infinity.
proof fn lemma_round_huge(m: nat, up: nat, down: nat, l: nat)
    requires
        l >= 1,
        pow2((l - 1) as nat) <= m,
        up + l - 53 - down >= 2046,
    ensures
        rounds_to(m * pow2(up), pow2(down), INFINITE as nat),
{
    let b: nat = BINADE as nat;
    let e: nat = (up + l - 53 - down) as nat;
    lemma2_to64_rest();
    lemma_units_split(2046, b);
    lemma_pow2_pos(up);
    lemma_pow2_pos(down);
    lemma_pow2_pos(2046);
    if e > 2046 {
        lemma_pow2_strictly_increases(2046, e);
    }
    lemma_pow2_adds((l - 1) as nat, up);
    lemma_pow2_adds(52, e);
    lemma_pow2_adds(52 + e, down);
    assert((l - 1) as nat + up == 52 + e + down);
    let (pl, pu, pd, pe): (nat, nat, nat, nat) = (
        pow2((l - 1) as nat),
        pow2(up),
        pow2(down),
        pow2(e),
    );
    assert(b == pow2(52));
    assert(m * pu >= pd * (b * pow2(2046))) by (nonlinear_arith)
        requires
            m >= pl,
            pl * pu == (b * pe) * pd,
            pe >= pow2(2046),
    ;
    lemma_round_overflow(m * pu, pd);
}

/// A value of too few digits is rounded to zero.
proof fn lemma_round_tiny(m: nat, up: nat, down: nat)
    requires
        m < 0x4000_0000_0000_0000_0000_0000_0000nat,
        up + 112 <= down,
    ensures
        rounds_to(m * pow2(up), pow2(down), 0),
{
    let t: nat = (down - up) as nat;
    lemma2_to64();
    lemma2_to64_rest();
    lemma_pow2_pos(up);
    lemma_pow2_adds(up, t);
    lemma_pow2_adds(64, 48);
    if t > 112 {
        lemma_pow2_strictly_increases(112, t);
    }
    let (pu, pt): (nat, nat) = (pow2(up), pow2(t));
    assert(2 * (m * pu) < (pu * pt) * 1) by (nonlinear_arith)
        requires
            2 * m < pt,
            pu > 0,
    ;
}

/// Shifting a number of `l` digits left by `s` gives one of `l + s` digits.
proof fn lemma_digits_appended(m: nat, l: nat, s: nat)
    requires
        1 <= l,
        pow2((l - 1) as nat) <= m < pow2(l),
        l + s <= 53,
    ensures
        m * pow2(s) < 2 * BINADE,
        l + s == 53 ==> m * pow2(s) >= BINADE,
{
    lemma2_to64_rest();
    lemma_pow2_pos(s);
    lemma_pow2_adds(l, s);
    lemma_pow2_adds((l - 1) as nat, s);
    if l + s < 53 {
        lemma_pow2_strictly_increases(l + s, 53);
    }
    let (lo, hi, ps): (nat, nat, nat) = (pow2((l - 1) as nat), pow2(l), pow2(s));
    assert(lo * ps <= m * ps && m * ps < hi * ps) by (nonlinear_arith)
        requires
            lo <= m < hi,
            ps > 0,
    ;
    assert((l - 1) as nat + s == (l + s - 1) as nat);
}

/// Dropping `t` of the `l` digits of a number leaves one of `l - t` digits.
proof fn lemma_digits_dropped(m: nat, l: nat, t: nat)
    requires
        1 <= l,
        pow2((l - 1) as nat) <= m < pow2(l),
        l <= 53 + t,
    ensures
        ({
            let q = m / pow2(t);
            &&& q < 2 * BINADE
            &&& l == 53 + t ==> q >= BINADE
            &&& q * pow2(t) <= m < q * pow2(t) + pow2(t)
        }),
{
    lemma2_to64_rest();
    lemma_pow2_pos(t);
    let pt: nat = pow2(t);
    let q: nat = m / pt;
    assert(q * pt <= m < q * pt + pt) by (nonlinear_arith)
        requires
            q == m / pt,
            pt > 0,
    ;
    lemma_pow2_adds(53, t);
    lemma_pow2_adds(52, t);
    if l < 53 + t {
        lemma_pow2_strictly_increases(l, 53 + t);
    }
    assert(q < pow2(53)) by (nonlinear_arith)
        requires
            q * pt <= m,
            m < pow2(53) * pt,
            pt > 0,
    ;
    if l == 53 + t {
        assert((l - 1) as nat == 52 + t);
        assert(q >= pow2(52)) by (nonlinear_arith)
            requires
                m < q * pt + pt,
                m >= pow2(52) * pt,
                pt > 0,
        ;
    }
}

/// The magnitude that `m * 2^up / 2^down` is rounded to.
pub(crate) fn round_scaled(m: u128, up: u32, down: u32) -> (r: u64)
    requires
        m < 0x4000_0000_0000_0000_0000_0000_0000,
        up <= 4200,
        down <= UNIT_EXPONENT,
    ensures
        rounds_to(m as nat * pow2(up as nat), pow2(down as nat), r as nat),
{
    proof {
        lemma2_to64();
        lemma_pow2_pos(up as nat);
        lemma_pow2_pos(down as nat);
    }
    if m == 0 {
        proof {
            assert(0 * pow2(up as nat) == 0) by (nonlinear_arith);
        }
        return 0;
    }
    let l: u32 = bit_length(m);
    assert(l <= 110) by {
        lemma2_to64();
        lemma_pow2_adds(64, 46);
        lemma2_to64_rest();
        if l > 110 {
            if l - 1 > 110 {
                lemma_pow2_strictly_increases(110, (l - 1) as nat);
            }
        }
    }
    let wanted: i32 = up as i32 + l as i32 - 53 - down as i32;
    let e: i32 = if wanted > 0 { wanted } else { 0 };
    let t: i32 = e + down as i32 - up as i32;
    let ghost num: nat = m as nat * pow2(up as nat);
    if e >= 2046 {
        proof {
            lemma_round_huge(m as nat, up as nat, down as nat, l as nat);
        }
        return INFINITE;
    }
    if t > 111 {
        proof {
            lemma_round_tiny(m as nat, up as nat, down as nat);
        }
        return 0;
    }
    if t <= 0 {
        let s: u32 = (-t) as u32;
        proof {
            lemma_digits_appended(m as nat, l as nat, s as nat);
        }
        let q: u128 = m * power_of_two(s);
        proof {
            let rem_up: nat = (up - s) as nat;
            lemma_pow2_adds(s as nat, rem_up);
            assert(s as nat + rem_up == up as nat);
            assert(q as nat * pow2(rem_up) == num) by (nonlinear_arith)
                requires
                    q == m as nat * pow2(s as nat),
                    num == m as nat * pow2(up as nat),
                    pow2(up as nat) == pow2(s as nat) * pow2(rem_up),
            ;
            assert(q as nat * pow2(0) == q);
            lemma_round_shifted(q as nat, rem_up, down as nat, e as nat, 0, q as nat, 0);
        }
        return e as u64 * BINADE + q as u64;
    }
    let p: u128 = power_of_two(t as u32);
    let q: u128 = m >> (t as u128);
    proof {
        vstd::bits::lemma_u128_shr_is_div(m, t as u128);
        lemma_digits_dropped(m as nat, l as nat, t as nat);
    }
    let rest: u128 = m - q * p;
    proof {
        lemma_round_shifted(
            m as nat,
            up as nat,
            down as nat,
            e as nat,
            t as nat,
            q as nat,
            rest as nat,
        );
    }
    let up_one: u64 = if 2 * rest > p || (2 * rest == p && q % 2 == 1) { 1 } else { 0 };
    e as u64 * BINADE + q as u64 + up_one
}

} // verus!
