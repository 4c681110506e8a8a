//! The cost model in the values of its coefficients.
//!
//! Values are integers, in units of 2^-1074 ms. The costs are stated three times over: step by
//! step for all coefficients, exactly for coefficients in whole milliseconds, and to within the
//! rounding errors for all coefficients that are not negative.
use crate::binary64::Binary64;
use crate::config::KvCentricConfig;
use crate::nearest::{
    gap, law_larger, law_natural, law_order, law_product, law_sum,
    lemma_exact_is_nearest,
};
use crate::order::{
    lemma_natural_zero, lemma_of, lemma_of_natural, lemma_order_of_values, lemma_product_monotone,
    lemma_product_not_negative, lemma_sum_monotone, lemma_sum_not_negative, lemma_sum_with_zero,
    lemma_zero_factor,
};
use crate::rounding::{
    lemma_rounded, lemma_rounded_is, lemma_units_increase, lemma_units_split, lemma_units_step,
    rounded, rounds_to, units, BINADE, INFINITE, UNIT_EXPONENT,
};
use vstd::arithmetic::power2::{
    lemma2_to64, lemma2_to64_rest, lemma_pow2_adds, lemma_pow2_pos, lemma_pow2_unfold, pow2,
};
use vstd::prelude::*;

verus! {

// ---- Step by step ----

/// The compute time is the larger of overhead + slope*n + quad*n*n and load overhead + slope*c*n,
/// in the configured coefficients whatever they are, with each step rounded; a concurrency of 0
/// counts as 1.
pub proof fn law_compute_formula(config: KvCentricConfig, c: nat, n: nat)
    ensures
        ({
            let tokens = Binary64::of_natural(n);
            let load = Binary64::of_natural(if c == 0 {
                1
            } else {
                c
            });
            let line = config.compute_slope_ms.product(tokens);
            let square = config.compute_quad_ms.product(tokens).product(tokens);
            let isolated = config.compute_overhead_ms.sum(line).sum(square);
            let shared = config.compute_slope_ms.product(load).product(tokens);
            let serialized = config.load_overhead_ms.sum(shared);
            &&& config.isolated_ms(n) == isolated
            &&& c > 0 ==> config.serialized_ms(c, n) == serialized
            &&& config.compute_ms(c, n) == isolated || config.compute_ms(c, n) == serialized
            &&& !config.compute_ms(c, n).lt(isolated) && !config.compute_ms(c, n).lt(serialized)
            &&& config.compute_ms(c, n).is_nan() ==> isolated.is_nan() && serialized.is_nan()
            &&& config.compute_ms(c, n) == isolated.larger(serialized)
        }),
{
}

/// Reading tokens from the store takes the configured overhead and the configured time for each
/// token; reading none takes no time.
pub proof fn law_l3_read_formula(config: KvCentricConfig, n: nat)
    ensures
        n > 0 ==> config.l3_read_ms(n) == config.l3_read_overhead_ms.sum(
            config.l3_read_per_token_ms.product(Binary64::of_natural(n)),
        ),
        config.l3_read_ms(0).bits == 0,
{
}

/// The costs depend on the coefficients of their formulas and on nothing else of a configuration.
pub proof fn law_costs_read_their_coefficients(
    config1: KvCentricConfig,
    config2: KvCentricConfig,
    c: nat,
    n: nat,
)
    ensures
        config1.compute_overhead_ms == config2.compute_overhead_ms && config1.compute_slope_ms
            == config2.compute_slope_ms && config1.compute_quad_ms == config2.compute_quad_ms
            && config1.load_overhead_ms == config2.load_overhead_ms ==> config1.compute_ms(c, n)
            == config2.compute_ms(c, n),
        config1.l3_read_overhead_ms == config2.l3_read_overhead_ms && config1.l3_read_per_token_ms
            == config2.l3_read_per_token_ms ==> config1.l3_read_ms(n) == config2.l3_read_ms(n),
{
}

// ---- In whole milliseconds ----

/// `x` is a whole number of milliseconds.
pub open spec fn is_whole(x: Binary64, k: nat) -> bool {
    x.is_finite() && x.value() == k * pow2(1074)
}

/// `2^53`, up to which every whole number is a number of the format.
pub const ALL_WHOLE: u64 = 0x20_0000_0000_0000;

/// A whole number up to 2^53 at any power of two is the value of a magnitude.
proof fn lemma_whole_magnitude(k: nat, e: nat) -> (m: nat)
    requires
        k <= ALL_WHOLE,
        e <= 1074,
    ensures
        m < INFINITE,
        units(m) == k * pow2(e),
    decreases e,
{
    let b: nat = BINADE as nat;
    if k >= b || e == 0 {
        lemma_units_split(e, k);
        let m: nat = e * b + k;
        assert(m <= 1074 * b + 2 * b) by (nonlinear_arith)
            requires
                m == e * b + k,
                e <= 1074,
                k <= 2 * b,
        ;
        m
    } else {
        let m: nat = lemma_whole_magnitude(2 * k, (e - 1) as nat);
        lemma_pow2_unfold(e);
        assert((2 * k) * pow2((e - 1) as nat) == k * pow2(e)) by (nonlinear_arith)
            requires
                pow2(e) == 2 * pow2((e - 1) as nat),
        ;
        m
    }
}

/// A number with the value `k` ms.
proof fn lemma_whole_number(k: nat) -> (y: Binary64)
    requires
        k <= ALL_WHOLE,
    ensures
        is_whole(y, k),
        2 * gap(y.value(), 0) < 0x3f_ffff_ffff_ffff * pow2(2045),
        !y.negative(),
{
    let m: nat = lemma_whole_magnitude(k, 1074);
    lemma_of(false, m);
    let y: Binary64 = Binary64::of(false, m);
    assert(units(m) >= 0);
    lemma_pow2_adds(1074, 971);
    lemma_pow2_pos(1074);
    lemma_pow2_unfold(971);
    lemma_pow2_pos(970);
    let (u, t): (nat, nat) = (pow2(1074), pow2(971));
    assert(2 * (k * u) < 0x3f_ffff_ffff_ffff * (u * t)) by (nonlinear_arith)
        requires
            k <= 0x20_0000_0000_0000,
            u > 0,
            t >= 2,
    {
        assert(2 * (k * u) <= 0x40_0000_0000_0000 * u);
        assert(u * t >= 2 * u);
    }
    y
}

/// The number made of a whole number up to 2^53 has its value.
proof fn lemma_whole_natural(n: nat)
    requires
        n <= ALL_WHOLE,
    ensures
        is_whole(Binary64::of_natural(n), n),
{
    let y: Binary64 = lemma_whole_number(n);
    law_natural(n);
    let v: int = (n * pow2(1074)) as int;
    assert(v >= 0) by (nonlinear_arith)
        requires
            v == n * pow2(1074),
    ;
    lemma_exact_is_nearest(v, 1, Binary64::of_natural(n), y);
}

/// A sum of whole numbers is exact.
proof fn lemma_whole_sum(a: Binary64, j: nat, b: Binary64, k: nat)
    requires
        is_whole(a, j),
        is_whole(b, k),
        j + k <= ALL_WHOLE,
    ensures
        is_whole(a.sum(b), j + k),
{
    let y: Binary64 = lemma_whole_number(j + k);
    law_sum(a, b);
    assert(j * pow2(1074) + k * pow2(1074) == (j + k) * pow2(1074)) by (nonlinear_arith);
    lemma_exact_is_nearest(a.value() + b.value(), 1, a.sum(b), y);
}

/// A product of whole numbers is exact.
proof fn lemma_whole_product(a: Binary64, j: nat, b: Binary64, k: nat)
    requires
        is_whole(a, j),
        is_whole(b, k),
        j * k <= ALL_WHOLE,
    ensures
        is_whole(a.product(b), j * k),
{
    let u: nat = pow2(1074);
    let y: Binary64 = lemma_whole_number(j * k);
    law_product(a, b);
    lemma_pow2_pos(1074);
    let v: int = a.value() * b.value();
    assert(v == u * y.value()) by (nonlinear_arith)
        requires
            v == a.value() * b.value(),
            a.value() == j * u,
            b.value() == k * u,
            y.value() == (j * k) * u,
    ;
    let top: int = (0x3f_ffff_ffff_ffff * pow2(2045)) as int;
    assert(y.value() >= 0) by (nonlinear_arith)
        requires
            y.value() == (j * k) * u,
    ;
    assert(2 * gap(v, 0) < u * top && v >= 0) by (nonlinear_arith)
        requires
            v == u * y.value(),
            y.value() >= 0,
            gap(v, 0) == (if v < 0 {
                -v
            } else {
                v
            }),
            2 * y.value() < top,
            u > 0,
    ;
    lemma_exact_is_nearest(v, u, a.product(b), y);
}

/// In whole milliseconds the compute time is the larger of `o + s*n + q*n^2` and `l + s*c*n`.
pub proof fn law_compute_in_whole_milliseconds(
    config: KvCentricConfig,
    o: nat,
    s: nat,
    q: nat,
    l: nat,
    c: nat,
    n: nat,
)
    requires
        is_whole(config.compute_overhead_ms, o),
        is_whole(config.compute_slope_ms, s),
        is_whole(config.compute_quad_ms, q),
        is_whole(config.load_overhead_ms, l),
        c >= 1,
        n <= ALL_WHOLE,
        c <= ALL_WHOLE,
        o + s * n + q * n * n <= ALL_WHOLE,
        l + s * c * n <= ALL_WHOLE,
        s * c <= ALL_WHOLE,
    ensures
        is_whole(
            config.compute_ms(c, n),
            if o + s * n + q * n * n >= l + s * c * n {
                o + s * n + q * n * n
            } else {
                l + s * c * n
            },
        ),
{
    let t: Binary64 = Binary64::of_natural(n);
    let f: Binary64 = Binary64::of_natural(c);
    lemma_whole_natural(n);
    lemma_whole_natural(c);
    assert(s * n >= 0 && q * n >= 0 && q * n * n >= 0 && s * c >= 0 && s * c * n >= 0) by (nonlinear_arith);
    assert(q * n <= q * n * n) by (nonlinear_arith)
        requires
            n == 0 || n >= 1,
    {
        if n >= 1 {
            assert((q * n) * n >= q * n);
        }
    }
    let (slope, quad, over, load): (Binary64, Binary64, Binary64, Binary64) = (
        config.compute_slope_ms,
        config.compute_quad_ms,
        config.compute_overhead_ms,
        config.load_overhead_ms,
    );
    lemma_whole_product(slope, s, t, n);
    lemma_whole_sum(over, o, slope.product(t), s * n);
    lemma_whole_product(quad, q, t, n);
    lemma_whole_product(quad.product(t), q * n, t, n);
    lemma_whole_sum(over.sum(slope.product(t)), o + s * n, quad.product(t).product(t), q * n * n);
    lemma_whole_product(slope, s, f, c);
    lemma_whole_product(slope.product(f), s * c, t, n);
    lemma_whole_sum(load, l, slope.product(f).product(t), s * c * n);
    let (isolated, serialized): (Binary64, Binary64) = (
        over.sum(slope.product(t)).sum(quad.product(t).product(t)),
        load.sum(slope.product(f).product(t)),
    );
    law_compute_formula(config, c, n);
    law_larger(isolated, serialized);
    law_order(isolated, serialized);
    let (a, b): (nat, nat) = (o + s * n + q * n * n, l + s * c * n);
    let u: nat = pow2(1074);
    lemma_pow2_pos(1074);
    assert(a * u < b * u <==> a < b) by (nonlinear_arith)
        requires
            u > 0,
    ;
}

/// In whole milliseconds reading `n` tokens takes `r + p*n`.
pub proof fn law_l3_read_in_whole_milliseconds(config: KvCentricConfig, r: nat, p: nat, n: nat)
    requires
        is_whole(config.l3_read_overhead_ms, r),
        is_whole(config.l3_read_per_token_ms, p),
        n <= ALL_WHOLE,
        r + p * n <= ALL_WHOLE,
    ensures
        is_whole(
            config.l3_read_ms(n),
            if n == 0 {
                0
            } else {
                r + p * n
            },
        ),
{
    let t: Binary64 = Binary64::of_natural(n);
    lemma_whole_natural(n);
    assert(p * n >= 0) by (nonlinear_arith);
    law_l3_read_formula(config, n);
    if n == 0 {
        assert(units(0) == 0);
        assert(0 * pow2(1074) == 0) by (nonlinear_arith);
    } else {
        lemma_whole_product(config.l3_read_per_token_ms, p, t, n);
        lemma_whole_sum(config.l3_read_overhead_ms, r, config.l3_read_per_token_ms.product(t), p * n);
    }
}

// ---- To within rounding ----

/// A rounded magnitude is off by half a step at the most: one part in 2^53, or half a unit.
proof fn lemma_half_step(num: nat, den: nat, m: nat)
    requires
        den > 0,
        rounds_to(num, den, m),
        m < INFINITE,
    ensures
        ALL_WHOLE * gap((den * units(m)) as int, num as int) <= BINADE * den + num,
{
    let b: nat = BINADE as nat;
    let um: nat = units(m);
    lemma_units_step(m);
    if num >= den * um {
        let u1: nat = units(m + 1);
        let step: nat = (u1 - um) as nat;
        lemma_step_share(m);
        assert(0x20_0000_0000_0000 * (num - den * um) <= b * den + num) by (nonlinear_arith)
            requires
                b == 0x10_0000_0000_0000,
                2 * num <= den * (um + u1),
                step == u1 - um,
                b * step <= b + um,
                num >= den * um,
        {
            assert(2 * (num - den * um) <= den * step);
            assert(b * (den * step) <= den * (b + um));
            assert(den * (b + um) == b * den + den * um);
        }
    } else {
        assert(m > 0) by {
            if m == 0 {
                assert(den * 0 == 0) by (nonlinear_arith);
            }
        }
        let u0: nat = units((m - 1) as nat);
        lemma_units_step((m - 1) as nat);
        let step: nat = (um - u0) as nat;
        lemma_step_share((m - 1) as nat);
        assert(0x20_0000_0000_0000 * (den * um - num) <= b * den + num) by (nonlinear_arith)
            requires
                b == 0x10_0000_0000_0000,
                2 * num >= den * (u0 + um),
                step == um - u0,
                b * step <= b + u0,
                u0 < um,
        {
            assert(2 * (den * um - num) <= den * step);
            assert(b * (den * step) <= den * (b + u0));
            assert(den * (b + u0) == b * den + den * u0);
            assert(den * u0 <= num);
        }
    }
}

/// The step to the next magnitude is one unit, or no more than one part in 2^52.
proof fn lemma_step_share(m: nat)
    ensures
        BINADE * (units(m + 1) - units(m)) <= BINADE + units(m),
{
    let b: nat = BINADE as nat;
    lemma_units_step(m);
    if m >= b {
        let p: nat = pow2((m / b - 1) as nat);
        assert(b * p <= (b + m % b) * p) by (nonlinear_arith);
    }
}

proof fn lemma_sum_error(a: Binary64, b: Binary64)
    requires
        a.sum(b).is_finite(),
        a.value() >= 0,
        b.value() >= 0,
    ensures
        a.is_finite(),
        b.is_finite(),
        a.sum(b).value() >= 0,
        ALL_WHOLE * gap(a.sum(b).value(), a.value() + b.value()) <= BINADE + a.value() + b.value(),
{
    law_sum(a, b);
    let v: nat = (a.value() + b.value()) as nat;
    lemma_rounded(v, 1);
    lemma_of(false, rounded(v, 1));
    lemma_of(a.negative() && b.negative(), 0);
    assert(units(0) == 0);
    if v > 0 {
        lemma_half_step(v, 1, rounded(v, 1));
    }
}

proof fn lemma_product_error(a: Binary64, b: Binary64)
    requires
        a.product(b).is_finite(),
        a.value() >= 0,
        b.value() >= 0,
    ensures
        a.is_finite(),
        b.is_finite(),
        a.product(b).value() >= 0,
        ALL_WHOLE * gap(pow2(1074) * a.product(b).value(), a.value() * b.value()) <= BINADE * pow2(
            1074,
        ) + a.value() * b.value(),
{
    law_product(a, b);
    assert(units(0) == 0);
    let (ma, mb): (nat, nat) = (a.magnitude(), b.magnitude());
    if ma > 0 {
        lemma_units_increase(0, ma);
    }
    if mb > 0 {
        lemma_units_increase(0, mb);
    }
    let (ua, ub): (nat, nat) = (units(ma), units(mb));
    let den: nat = pow2(1074);
    lemma_pow2_pos(1074);
    let negative: bool = a.negative() != b.negative();
    let m: nat = rounded(ua * ub, den);
    lemma_rounded(ua * ub, den);
    lemma_of(negative, m);
    lemma_half_step(ua * ub, den, m);
    assert(a.value() * b.value() == ua * ub) by (nonlinear_arith)
        requires
            a.value() == ua as int,
            b.value() == ub as int,
    ;
    if negative {
        // A negative zero is among the factors.
        assert(ua * ub == 0) by (nonlinear_arith)
            requires
                ua == 0 || ub == 0,
        ;
        lemma_units_step(0);
        assert(den * (units(0) + units(1)) > 0) by (nonlinear_arith)
            requires
                den > 0,
                units(1) > 0,
        ;
        lemma_rounded_is(0, den, 0);
    }
}

proof fn lemma_natural_error(n: nat)
    requires
        Binary64::of_natural(n).is_finite(),
    ensures
        Binary64::of_natural(n).value() >= 0,
        ALL_WHOLE * gap(Binary64::of_natural(n).value(), (n * pow2(1074)) as int) <= 2 * (n * pow2(1074)),
{
    let v: nat = n * pow2(UNIT_EXPONENT as nat);
    lemma_rounded(v, 1);
    lemma_of(false, rounded(v, 1));
    if n == 0 {
        lemma_natural_zero();
        assert(units(0) == 0);
        assert(0 * pow2(1074) == 0) by (nonlinear_arith);
    } else {
        lemma_half_step(v, 1, rounded(v, 1));
        lemma_pow2_adds(64, 1010);
        lemma_pow2_pos(1010);
        lemma2_to64();
        lemma2_to64_rest();
        let (w, u): (nat, nat) = (pow2(1010), pow2(1074));
        assert(u >= 0x10_0000_0000_0000) by (nonlinear_arith)
            requires
                u == 0x10000000000000000 * w,
                w > 0,
        ;
        assert(v >= u) by (nonlinear_arith)
            requires
                v == n * u,
                n > 0,
        ;
    }
}

/// `x` is `v` to within `k` parts in 2^53 and `a` units.
spec fn near(x: int, v: int, k: int, a: int) -> bool {
    &&& x >= 0
    &&& v >= 0
    &&& ALL_WHOLE * gap(x, v) <= k * v + ALL_WHOLE * a
}

/// What rounding adds in a product with a natural number.
proof fn lemma_near_product(x: Binary64, v: int, k: int, a: int, n: nat)
    requires
        near(x.value(), v, k, a),
        0 <= k <= 100,
        a >= 0,
        x.product(Binary64::of_natural(n)).is_finite(),
    ensures
        near(x.product(Binary64::of_natural(n)).value(), v * n, 2 * k + 6, 4 * (a * n) + 1),
{
    let t: Binary64 = Binary64::of_natural(n);
    let r: Binary64 = x.product(t);
    law_product(x, t);
    law_natural(n);
    assert(t.is_finite() && x.is_finite());
    lemma_natural_error(n);
    lemma_product_error(x, t);
    lemma_pow2_pos(1074);
    lemma_near_scaled(
        x.value(),
        v,
        k,
        a,
        t.value(),
        n as int,
        r.value(),
        pow2(1074) as int,
        ALL_WHOLE as int,
    );
    assert(v * n >= 0) by (nonlinear_arith)
        requires
            v >= 0,
    ;
}

/// The same in integers.
proof fn lemma_near_scaled(x: int, v: int, k: int, a: int, t: int, n: int, r: int, u: int, p: int)
    requires
        x >= 0,
        v >= 0,
        0 <= k <= 100,
        a >= 0,
        t >= 0,
        n >= 0,
        r >= 0,
        u > 0,
        p == 0x20_0000_0000_0000,
        p * gap(x, v) <= k * v + p * a,
        p * gap(t, n * u) <= 2 * (n * u),
        p * gap(u * r, x * t) <= p * u + x * t,
    ensures
        p * gap(r, v * n) <= (2 * k + 6) * (v * n) + p * (4 * (a * n) + 1),
{
    let (d1, d2, d3): (int, int, int) = (u * r - x * t, x - v, t - n * u);
    let nu: int = n * u;
    assert(nu >= 0) by (nonlinear_arith)
        requires
            n >= 0,
            u > 0,
            nu == n * u,
    ;
    assert(t <= 2 * nu) by (nonlinear_arith)
        requires
            p == 0x20_0000_0000_0000,
            p * (t - nu) <= 2 * nu,
            nu >= 0,
    ;
    assert(p * d2 <= k * v + p * a && -(p * d2) <= k * v + p * a) by (nonlinear_arith)
        requires
            p * gap(x, v) <= k * v + p * a,
            d2 == x - v,
            gap(x, v) == d2 || gap(x, v) == -d2,
            gap(x, v) >= 0,
            p > 0,
            k >= 0,
            v >= 0,
            a >= 0,
    ;
    assert(p * d3 <= 2 * nu && -(p * d3) <= 2 * nu) by (nonlinear_arith)
        requires
            p * gap(t, nu) <= 2 * nu,
            gap(t, nu) == d3 || gap(t, nu) == -d3,
            gap(t, nu) >= 0,
            p > 0,
            nu >= 0,
    ;
    assert(p * d1 <= p * u + x * t && -(p * d1) <= p * u + x * t) by (nonlinear_arith)
        requires
            p * gap(u * r, x * t) <= p * u + x * t,
            gap(u * r, x * t) == d1 || gap(u * r, x * t) == -d1,
            gap(u * r, x * t) >= 0,
            x >= 0,
            t >= 0,
            p > 0,
            u > 0,
    ;
    assert(x <= 2 * v + a) by (nonlinear_arith)
        requires
            p == 0x20_0000_0000_0000,
            p * d2 <= k * v + p * a,
            d2 == x - v,
            0 <= k <= 100,
            v >= 0,
    ;
    // The error, times p and u, in its three parts.
    let whole: int = p * (u * r - v * nu);
    assert(whole == p * d1 + (p * d2) * t + v * (p * d3)) by (nonlinear_arith)
        requires
            whole == p * (u * r - v * nu),
            d1 == u * r - x * t,
            d2 == x - v,
            d3 == t - nu,
    ;
    let e2: int = (p * d2) * t;
    let e3: int = v * (p * d3);
    let bound2: int = (k * v + p * a) * (2 * nu);
    assert(e2 <= bound2 && -e2 <= bound2) by (nonlinear_arith)
        requires
            e2 == (p * d2) * t,
            bound2 == (k * v + p * a) * (2 * nu),
            p * d2 <= k * v + p * a,
            -(p * d2) <= k * v + p * a,
            0 <= t <= 2 * nu,
    {
        let big: int = k * v + p * a;
        let pd: int = p * d2;
        assert(big >= 0);
        assert(pd * t <= big * t);
        assert(-pd * t <= big * t);
        assert(big * t <= big * (2 * nu));
    }
    assert(e3 <= v * (2 * nu) && -e3 <= v * (2 * nu)) by (nonlinear_arith)
        requires
            e3 == v * (p * d3),
            p * d3 <= 2 * nu,
            -(p * d3) <= 2 * nu,
            v >= 0,
    ;
    assert(x * t <= (2 * v + a) * (2 * nu)) by (nonlinear_arith)
        requires
            0 <= x <= 2 * v + a,
            0 <= t <= 2 * nu,
    ;
    let total: int = p * u + (2 * v + a) * (2 * nu) + bound2 + v * (2 * nu);
    assert(whole <= total && -whole <= total);
    let claim: int = (2 * k + 6) * (v * n) + p * (4 * (a * n) + 1);
    let (vn, an): (int, int) = (v * nu, a * nu);
    let (kvn, pan): (int, int) = (k * vn, p * an);
    assert(total == p * u + 6 * vn + 2 * an + 2 * kvn + 2 * pan) by {
        assert((2 * v + a) * (2 * nu) == 4 * vn + 2 * an) by (nonlinear_arith)
            requires
                vn == v * nu,
                an == a * nu,
        ;
        assert((k * v + p * a) * (2 * nu) == 2 * kvn + 2 * pan) by (nonlinear_arith)
            requires
                vn == v * nu,
                an == a * nu,
                kvn == k * vn,
                pan == p * an,
        ;
        assert(v * (2 * nu) == 2 * vn) by (nonlinear_arith)
            requires
                vn == v * nu,
        ;
    }
    assert(u * claim == 6 * vn + 2 * kvn + 4 * pan + p * u) by {
        let (left, right): (int, int) = ((2 * k + 6) * (v * n), p * (4 * (a * n) + 1));
        assert(u * (left + right) == u * left + u * right) by (nonlinear_arith);
        assert(u * (v * n) == vn && u * (a * n) == an) by (nonlinear_arith)
            requires
                vn == v * (n * u),
                an == a * (n * u),
        ;
        assert(u * left == 2 * kvn + 6 * vn) by (nonlinear_arith)
            requires
                left == (2 * k + 6) * (v * n),
                u * (v * n) == vn,
                kvn == k * vn,
        {
            let w: int = v * n;
            assert(u * ((2 * k + 6) * w) == (2 * k + 6) * (u * w));
        }
        assert(u * right == 4 * pan + p * u) by (nonlinear_arith)
            requires
                right == p * (4 * (a * n) + 1),
                u * (a * n) == an,
                pan == p * an,
        {
            let w: int = a * n;
            assert(u * (p * (4 * w + 1)) == 4 * (p * (u * w)) + p * u);
        }
    }
    assert(0 <= an <= pan) by (nonlinear_arith)
        requires
            an == a * nu,
            a >= 0,
            nu >= 0,
            pan == p * an,
            p == 0x20_0000_0000_0000,
    ;
    assert(total <= u * claim);
    let d: int = r - v * n;
    assert(whole == u * (p * d)) by (nonlinear_arith)
        requires
            whole == p * (u * r - v * nu),
            d == r - v * n,
            nu == n * u,
    ;
    assert(p * d <= claim && -(p * d) <= claim) by (nonlinear_arith)
        requires
            whole == u * (p * d),
            whole <= u * claim,
            -whole <= u * claim,
            u > 0,
    ;
}

/// What rounding adds in a sum.
proof fn lemma_near_sum(
    x: Binary64,
    v: int,
    y: Binary64,
    w: int,
    k: int,
    a: int,
    b: int,
)
    requires
        near(x.value(), v, k, a),
        near(y.value(), w, k, b),
        0 <= k <= 100,
        a >= 0,
        b >= 0,
        x.sum(y).is_finite(),
    ensures
        near(x.sum(y).value(), v + w, k + 2, 2 * (a + b) + 1),
{
    lemma_sum_error(x, y);
    let p: int = ALL_WHOLE as int;
    let (xv, yv): (int, int) = (x.value(), y.value());
    assert(k * (v + w) == k * v + k * w && (k + 2) * (v + w) == k * (v + w) + 2 * (v + w))
        by (nonlinear_arith);
    assert(k * v <= 100 * v && k * w <= 100 * w) by (nonlinear_arith)
        requires
            k <= 100,
            v >= 0,
            w >= 0,
    ;
    assert(xv <= 2 * v + a);
    assert(yv <= 2 * w + b);
}

proof fn lemma_near_self(x: Binary64)
    requires
        x.value() >= 0,
    ensures
        near(x.value(), x.value(), 0, 0),
{
}

/// A wider margin.
proof fn lemma_near_wider(x: int, v: int, k: int, a: int, j: int)
    requires
        near(x, v, k, a),
        k <= j,
    ensures
        near(x, v, j, a),
{
    assert(k * v <= j * v) by (nonlinear_arith)
        requires
            k <= j,
            v >= 0,
    ;
}

/// Alone, a request of `n` tokens costs overhead + slope*n + quad*n^2 in the configured
/// coefficients: to within one part in 2^48, and to a few units for each token, where they are not
/// negative and the cost is finite.
pub proof fn law_isolated_near_formula(config: KvCentricConfig, n: nat)
    requires
        config.compute_overhead_ms.value() >= 0,
        config.compute_slope_ms.value() >= 0,
        config.compute_quad_ms.value() >= 0,
        config.isolated_ms(n).is_finite(),
    ensures
        ({
            let exact = config.compute_overhead_ms.value() + config.compute_slope_ms.value() * n
                + config.compute_quad_ms.value() * n * n;
            0x1_0000_0000_0000 * gap(config.isolated_ms(n).value(), exact) <= exact
                + 0x1_0000_0000_0000 * (8 * n + 9)
        }),
{
    let t: Binary64 = Binary64::of_natural(n);
    let (o, s, q): (Binary64, Binary64, Binary64) = (
        config.compute_overhead_ms,
        config.compute_slope_ms,
        config.compute_quad_ms,
    );
    law_compute_formula(config, 1, n);
    let (line, head): (Binary64, Binary64) = (s.product(t), o.sum(s.product(t)));
    let (part, square): (Binary64, Binary64) = (q.product(t), q.product(t).product(t));
    lemma_finite_terms(head, square);
    lemma_finite_terms(o, line);
    lemma_finite_factors(s, t);
    lemma_finite_factors(part, t);
    lemma_finite_factors(q, t);
    lemma_near_self(o);
    lemma_near_self(s);
    lemma_near_self(q);
    assert(0 * (n as int) == 0) by (nonlinear_arith);
    lemma_near_product(s, s.value(), 0, 0, n);
    lemma_near_wider(o.value(), o.value(), 0, 0, 6);
    lemma_near_sum(o, o.value(), line, s.value() * n, 6, 0, 1);
    lemma_near_product(q, q.value(), 0, 0, n);
    assert(1 * (n as int) == n) by (nonlinear_arith);
    lemma_near_product(part, q.value() * n, 6, 1, n);
    let hv: int = o.value() + s.value() * n;
    let qv: int = q.value() * n * n;
    lemma_near_wider(head.value(), hv, 8, 3, 18);
    lemma_near_sum(head, hv, square, qv, 18, 3, (4 * n + 1) as int);
}

/// In a batch of `c`, a request of `n` tokens costs load overhead + slope*c*n in the configured
/// coefficients: to within one part in 2^48, and to a few units for each token, where they are not
/// negative and the cost is finite.
pub proof fn law_serialized_near_formula(config: KvCentricConfig, c: nat, n: nat)
    requires
        config.load_overhead_ms.value() >= 0,
        config.compute_slope_ms.value() >= 0,
        c >= 1,
        config.serialized_ms(c, n).is_finite(),
    ensures
        ({
            let exact = config.load_overhead_ms.value() + config.compute_slope_ms.value() * c * n;
            0x1_0000_0000_0000 * gap(config.serialized_ms(c, n).value(), exact) <= exact
                + 0x1_0000_0000_0000 * (8 * n + 3)
        }),
{
    let (f, t): (Binary64, Binary64) = (Binary64::of_natural(c), Binary64::of_natural(n));
    let (l, s): (Binary64, Binary64) = (config.load_overhead_ms, config.compute_slope_ms);
    law_compute_formula(config, c, n);
    let (part, shared): (Binary64, Binary64) = (s.product(f), s.product(f).product(t));
    lemma_finite_terms(l, shared);
    lemma_finite_factors(part, t);
    lemma_finite_factors(s, f);
    lemma_near_self(l);
    lemma_near_self(s);
    assert(0 * (c as int) == 0) by (nonlinear_arith);
    lemma_near_product(s, s.value(), 0, 0, c);
    assert(1 * (n as int) == n) by (nonlinear_arith);
    lemma_near_product(part, s.value() * c, 6, 1, n);
    lemma_near_wider(l.value(), l.value(), 0, 0, 18);
    lemma_near_sum(l, l.value(), shared, s.value() * c * n, 18, 0, (4 * n + 1) as int);
}

/// Reading `n` tokens costs the configured overhead + the configured time per token * n, to within
/// one part in 2^48 and three units, where they are not negative and the cost is finite.
pub proof fn law_l3_read_near_formula(config: KvCentricConfig, n: nat)
    requires
        config.l3_read_overhead_ms.value() >= 0,
        config.l3_read_per_token_ms.value() >= 0,
        n > 0,
        config.l3_read_ms(n).is_finite(),
    ensures
        ({
            let exact = config.l3_read_overhead_ms.value() + config.l3_read_per_token_ms.value() * n;
            0x1_0000_0000_0000 * gap(config.l3_read_ms(n).value(), exact) <= exact
                + 0x1_0000_0000_0000 * 3
        }),
{
    let t: Binary64 = Binary64::of_natural(n);
    let (o, s): (Binary64, Binary64) = (config.l3_read_overhead_ms, config.l3_read_per_token_ms);
    law_l3_read_formula(config, n);
    let line: Binary64 = s.product(t);
    lemma_finite_terms(o, line);
    lemma_finite_factors(s, t);
    lemma_near_self(o);
    lemma_near_self(s);
    assert(0 * (n as int) == 0) by (nonlinear_arith);
    lemma_near_product(s, s.value(), 0, 0, n);
    lemma_near_wider(o.value(), o.value(), 0, 0, 6);
    lemma_near_sum(o, o.value(), line, s.value() * n, 6, 0, 1);
}

/// A finite sum has finite terms.
proof fn lemma_finite_terms(a: Binary64, b: Binary64)
    requires
        a.sum(b).is_finite(),
    ensures
        a.is_finite(),
        b.is_finite(),
{
    law_sum(a, b);
}

/// A finite product has finite factors.
proof fn lemma_finite_factors(a: Binary64, b: Binary64)
    requires
        a.product(b).is_finite(),
    ensures
        a.is_finite(),
        b.is_finite(),
{
    law_product(a, b);
}

/// Reading tokens never takes less than the configured overhead, takes just that where a token
/// takes no time, and takes no less for more tokens.
pub proof fn law_l3_read_grows(config: KvCentricConfig, n1: nat, n2: nat)
    requires
        config.l3_read_overhead_ms.is_finite(),
        config.l3_read_overhead_ms.value() >= 0,
        config.l3_read_per_token_ms.is_finite(),
        config.l3_read_per_token_ms.value() >= 0,
        n1 <= n2 <= u64::MAX,
    ensures
        n1 > 0 ==> !config.l3_read_ms(n1).lt(config.l3_read_overhead_ms),
        n1 > 0 && config.l3_read_per_token_ms.value() == 0 ==> config.l3_read_ms(n1).value()
            == config.l3_read_overhead_ms.value(),
        !config.l3_read_ms(n2).lt(config.l3_read_ms(n1)),
        !config.l3_read_ms(n1).is_nan() && !config.l3_read_ms(n2).is_nan(),
{
    let (o, s): (Binary64, Binary64) = (config.l3_read_overhead_ms, config.l3_read_per_token_ms);
    let (t1, t2): (Binary64, Binary64) = (Binary64::of_natural(n1), Binary64::of_natural(n2));
    let zero: Binary64 = Binary64 { bits: 0 };
    assert(units(0) == 0);
    assert(zero.value() == 0 && zero.rank() == 0 && zero.is_finite());
    lemma_order_of_values(zero, o);
    lemma_order_of_values(zero, s);
    lemma_of_natural(n1, n2);
    lemma_product_not_negative(s, t1);
    lemma_product_not_negative(s, t2);
    lemma_product_monotone(s, t1, s, t2);
    lemma_sum_not_negative(o, s.product(t1));
    lemma_sum_not_negative(o, s.product(t2));
    lemma_sum_monotone(o, s.product(t1), o, s.product(t2));
    lemma_sum_with_zero(o, zero);
    lemma_sum_monotone(o, zero, o, s.product(t1));
    law_l3_read_formula(config, n1);
    law_l3_read_formula(config, n2);
    if s.value() == 0 {
        if s.magnitude() > 0 {
            lemma_units_increase(0, s.magnitude());
        }
        lemma_zero_first(s, t1);
        lemma_sum_with_zero(o, s.product(t1));
        let r: Binary64 = o.sum(s.product(t1));
        lemma_order_of_values(r, o);
    }
}

/// Zero times a finite number is zero.
proof fn lemma_zero_first(a: Binary64, b: Binary64)
    requires
        a.magnitude() == 0,
        b.is_finite(),
    ensures
        a.product(b).magnitude() == 0,
{
    lemma_zero_factor(b, a);
    let (ua, ub): (nat, nat) = (units(a.magnitude()), units(b.magnitude()));
    assert(ua * ub == ub * ua) by (nonlinear_arith);
}

// ---- The estimate ----

/// The estimate is the cheaper of two options. One computes all that the worker has not cached.
/// The other, open only where the best prefix in the cluster is ahead of the local one by more than
/// the threshold, pulls the difference and computes the rest; it is taken exactly where it is
/// below. Either way the request counts in the worker's batch.
pub proof fn law_estimate_takes_the_cheaper_option(
    config: KvCentricConfig,
    prompt: nat,
    local: u32,
    best: u32,
    depth: nat,
    block_size: nat,
)
    requires
        prompt <= usize::MAX,
        depth < usize::MAX,
        local * block_size <= usize::MAX,
        best > local + config.balancing_threshold ==> best * block_size <= usize::MAX,
    ensures
        ({
            let held = local * block_size;
            let there = best * block_size;
            let rest = if prompt > held {
                prompt - held
            } else {
                0
            };
            let rest_after_pull = if prompt > there {
                prompt - there
            } else {
                0
            };
            let pulled = if best > local {
                (best - local) * block_size
            } else {
                0
            };
            let alone = config.compute_ms(depth + 1, rest as nat);
            let compute = config.compute_ms(depth + 1, rest_after_pull as nat);
            let transfer = config.l3_read_ms(pulled as nat);
            let e = config.estimate(prompt, local, best, depth, block_size);
            &&& e.concurrency == depth + 1
            &&& e.local_cached_blocks == local
            &&& if best > local + config.balancing_threshold && compute.sum(transfer).lt(alone) {
                &&& e.ttft_ms == compute.sum(transfer)
                &&& e.compute_ms == compute
                &&& e.transfer_ms == transfer
                &&& e.pulled_tokens == pulled
                &&& e.new_tokens == rest_after_pull
            } else {
                &&& e.ttft_ms == alone
                &&& e.compute_ms == alone
                &&& e.transfer_ms.bits == 0
                &&& e.pulled_tokens == 0
                &&& e.new_tokens == rest
            }
        }),
{
    let (x, y): (int, int) = (local as int, best as int);
    assert((y - x) * block_size == y * block_size - x * block_size) by (nonlinear_arith);
    assert(x * block_size >= 0) by (nonlinear_arith)
        requires
            x >= 0,
    ;
    assert(y * block_size >= 0) by (nonlinear_arith)
        requires
            y >= 0,
    ;
    if y > x {
        assert(y * block_size >= x * block_size) by (nonlinear_arith)
            requires
                y > x,
        ;
    }
}

/// A pull that is ahead by more than the threshold and cheaper than computing is taken, whatever
/// the configuration.
pub proof fn law_pull_taken_where_it_pays(
    config: KvCentricConfig,
    prompt: nat,
    local: u32,
    best: u32,
    depth: nat,
    block_size: nat,
)
    requires
        prompt <= usize::MAX,
        depth < usize::MAX,
        best * block_size <= usize::MAX,
        local * block_size <= usize::MAX,
        best as int > local as int + config.balancing_threshold as int,
        ({
            let rest = if prompt > local * block_size {
                prompt - local * block_size
            } else {
                0
            };
            let rest_after_pull = if prompt > best * block_size {
                prompt - best * block_size
            } else {
                0
            };
            config.compute_ms(depth + 1, rest_after_pull as nat).sum(
                config.l3_read_ms(((best - local) * block_size) as nat),
            ).lt(config.compute_ms(depth + 1, rest as nat))
        }),
    ensures
        ({
            let rest_after_pull = if prompt > best * block_size {
                prompt - best * block_size
            } else {
                0
            };
            let e = config.estimate(prompt, local, best, depth, block_size);
            &&& e.pulled_tokens == (best - local) * block_size
            &&& e.new_tokens == rest_after_pull
            &&& e.ttft_ms == config.compute_ms(depth + 1, rest_after_pull as nat).sum(
                config.l3_read_ms(((best - local) * block_size) as nat),
            )
        }),
{
    law_estimate_takes_the_cheaper_option(config, prompt, local, best, depth, block_size);
}

/// Under a lower threshold, with all else equal, no estimate is higher; where both thresholds
/// allow a pull, or neither does, the estimates are the same.
pub proof fn law_threshold_is_only_a_gate(
    config1: KvCentricConfig,
    config2: KvCentricConfig,
    prompt: nat,
    local: u32,
    best: u32,
    depth: nat,
    block_size: nat,
)
    requires
        config1.balancing_threshold <= config2.balancing_threshold,
        config2 == (KvCentricConfig {
            balancing_threshold: config2.balancing_threshold,
            ..config1
        }),
    ensures
        !config2.estimate(prompt, local, best, depth, block_size).ttft_ms.lt(
            config1.estimate(prompt, local, best, depth, block_size).ttft_ms,
        ),
        (best > local + config1.balancing_threshold) == (best > local
            + config2.balancing_threshold) ==> config1.estimate(
            prompt,
            local,
            best,
            depth,
            block_size,
        ) == config2.estimate(prompt, local, best, depth, block_size),
{
}

/// The compute time in whole milliseconds, for whole coefficients.
pub open spec fn whole_compute(o: nat, s: nat, q: nat, l: nat, c: nat, n: nat) -> nat {
    let alone = o + s * n + q * n * n;
    let shared = l + s * c * n;
    if alone >= shared {
        alone
    } else {
        shared
    }
}

/// The compute time can be told in whole milliseconds.
pub open spec fn in_range(o: nat, s: nat, q: nat, l: nat, c: nat, n: nat) -> bool {
    n <= 0x20_0000_0000_0000 && c <= 0x20_0000_0000_0000 && whole_compute(o, s, q, l, c, n)
        <= 0x20_0000_0000_0000 && s * c <= 0x20_0000_0000_0000
}

/// In whole milliseconds the estimate is the lesser of the two options' integers.
pub proof fn law_estimate_in_whole_milliseconds(
    config: KvCentricConfig,
    o: nat,
    s: nat,
    q: nat,
    l: nat,
    r: nat,
    p: nat,
    prompt: nat,
    local: u32,
    best: u32,
    depth: nat,
    block_size: nat,
)
    requires
        is_whole(config.compute_overhead_ms, o),
        is_whole(config.compute_slope_ms, s),
        is_whole(config.compute_quad_ms, q),
        is_whole(config.load_overhead_ms, l),
        is_whole(config.l3_read_overhead_ms, r),
        is_whole(config.l3_read_per_token_ms, p),
        local <= best,
        best * block_size <= prompt <= usize::MAX,
        depth < usize::MAX,
        in_range(o, s, q, l, depth + 1, (prompt - local * block_size) as nat),
        in_range(o, s, q, l, depth + 1, (prompt - best * block_size) as nat),
        (best - local) * block_size <= 0x20_0000_0000_0000,
        whole_compute(o, s, q, l, depth + 1, (prompt - best * block_size) as nat) + r + p * ((best
            - local) * block_size) <= 0x20_0000_0000_0000,
    ensures
        ({
            let alone = whole_compute(o, s, q, l, depth + 1, (prompt - local * block_size) as nat);
            let pulled = (best - local) * block_size;
            let pull = whole_compute(o, s, q, l, depth + 1, (prompt - best * block_size) as nat) + (
            if pulled == 0 {
                0
            } else {
                r + p * pulled
            });
            let e = config.estimate(prompt, local, best, depth, block_size);
            is_whole(
                e.ttft_ms,
                if best > local + config.balancing_threshold && pull < alone {
                    pull as nat
                } else {
                    alone
                },
            )
        }),
{
    let (x, y): (int, int) = (local as int, best as int);
    assert(0 <= x * block_size <= y * block_size && (y - x) * block_size >= 0) by (nonlinear_arith)
        requires
            0 <= x <= y,
    ;
    let (n1, n2): (nat, nat) = (
        (prompt - local * block_size) as nat,
        (prompt - best * block_size) as nat,
    );
    let pulled: nat = ((best - local) * block_size) as nat;
    let c: nat = depth + 1;
    assert(p * pulled >= 0) by (nonlinear_arith);
    law_compute_in_whole_milliseconds(config, o, s, q, l, c, n1);
    law_compute_in_whole_milliseconds(config, o, s, q, l, c, n2);
    law_l3_read_in_whole_milliseconds(config, r, p, pulled);
    let read: nat = if pulled == 0 {
        0
    } else {
        r + p * pulled
    };
    let (alone, base): (nat, nat) = (
        whole_compute(o, s, q, l, c, n1),
        whole_compute(o, s, q, l, c, n2),
    );
    let (compute, transfer): (Binary64, Binary64) = (
        config.compute_ms(c, n2),
        config.l3_read_ms(pulled),
    );
    lemma_whole_sum(compute, base, transfer, read);
    law_order(compute.sum(transfer), config.compute_ms(c, n1));
    let (u, pull): (nat, nat) = (pow2(1074), base + read);
    lemma_pow2_pos(1074);
    assert(pull * u < alone * u <==> pull < alone) by (nonlinear_arith)
        requires
            u > 0,
    ;
    law_estimate_takes_the_cheaper_option(config, prompt, local, best, depth, block_size);
}

} // verus!
