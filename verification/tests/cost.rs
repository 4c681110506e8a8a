use kv_centric::{Binary64, KvCentricConfig, KvCentricOverrides, KvCentricPolicy};

fn number(x: f64) -> Binary64 {
    Binary64 { bits: x.to_bits() }
}

fn ms(x: Binary64) -> f64 {
    f64::from_bits(x.bits)
}

fn policy() -> KvCentricPolicy {
    KvCentricPolicy::with_config(KvCentricConfig::default())
}

fn tuned(change: impl Fn(&mut KvCentricOverrides)) -> KvCentricPolicy {
    let mut o = KvCentricOverrides::default();
    change(&mut o);
    let mut config = KvCentricConfig::default();
    config.apply_overrides(&o);
    KvCentricPolicy::with_config(config)
}

fn isolated(n: usize) -> f64 {
    let n = n as f64;
    14.8 + 0.00464 * n + 4.75e-7 * n * n
}

fn serialized(c: usize, n: usize) -> f64 {
    14.9 + 0.00464 * (c as f64) * (n as f64)
}

#[test]
fn compute_time_is_the_larger_of_the_two_models() {
    let p = policy();
    for c in [1usize, 2, 3, 8, 17, 100, 1000] {
        for n in [0usize, 1, 63, 64, 100, 1000, 4096, 32768, 131072, 1_000_000] {
            let expected = isolated(n).max(serialized(c, n));
            assert_eq!(p.t_compute(c, n).bits, expected.to_bits(), "c={c} n={n}");
        }
    }
}

#[test]
fn compute_time_of_a_long_prompt_alone_is_quadratic() {
    assert_eq!(ms(policy().t_compute(1, 32768)), isolated(32768));
    assert!(isolated(32768) > serialized(1, 32768));
}

#[test]
fn compute_time_under_load_is_serialized() {
    assert_eq!(ms(policy().t_compute(16, 32768)), serialized(16, 32768));
    assert!(serialized(16, 32768) > isolated(32768));
    assert_eq!(ms(policy().t_compute(64, 32768)), serialized(64, 32768));
}

#[test]
fn no_concurrency_counts_as_one() {
    let p = policy();
    for n in [0usize, 100, 100_000] {
        assert_eq!(p.t_compute(0, n).bits, p.t_compute(1, n).bits);
    }
}

#[test]
fn compute_time_rises_with_load_and_tokens() {
    let p = policy();
    let mut last = 0.0;
    for c in 1..200usize {
        let t = ms(p.t_compute(c, 5000));
        assert!(t >= last);
        last = t;
    }
    let mut last = 0.0;
    for n in 0..5000usize {
        let t = ms(p.t_compute(3, n));
        assert!(t >= last);
        last = t;
    }
}

#[test]
fn a_cost_that_is_no_number_does_not_count() {
    // Infinity times no tokens.
    let p = tuned(|o| {
        o.compute_slope_ms = Some(number(f64::MAX));
        o.load_overhead_ms = Some(number(100.0));
        o.compute_overhead_ms = Some(number(1.0));
    });
    assert_eq!(ms(p.t_compute(1, 0)), 100.0);
    assert_eq!(ms(p.t_compute(2, 0)), 1.0);
    let p = tuned(|o| o.compute_overhead_ms = Some(number(f64::NAN)));
    assert_eq!(ms(p.t_compute(2, 10)), serialized(2, 10));
}

#[test]
fn reading_nothing_takes_no_time() {
    assert_eq!(policy().t_l3_read(0).bits, 0.0f64.to_bits());
}

#[test]
fn reading_has_a_fixed_cost_and_one_per_token() {
    let p = policy();
    for n in [1usize, 64, 640, 100_000] {
        let expected = 0.215 + 0.000937 * (n as f64);
        assert_eq!(p.t_l3_read(n).bits, expected.to_bits());
    }
}

#[test]
fn the_local_prefix_alone() {
    let e = policy().estimate_ttft(10_000, 10, 10, 2, 64);
    assert_eq!(e.concurrency, 3);
    assert_eq!(e.local_cached_blocks, 10);
    assert_eq!(e.pulled_tokens, 0);
    assert_eq!(e.new_tokens, 10_000 - 640);
    assert_eq!(ms(e.transfer_ms), 0.0);
    let expected = isolated(9360).max(serialized(3, 9360));
    assert_eq!(ms(e.compute_ms), expected);
    assert_eq!(ms(e.ttft_ms), expected);
}

#[test]
fn a_pull_that_pays() {
    let e = policy().estimate_ttft(10_000, 10, 100, 0, 64);
    assert_eq!(e.concurrency, 1);
    assert_eq!(e.local_cached_blocks, 10);
    assert_eq!(e.pulled_tokens, 90 * 64);
    assert_eq!(e.new_tokens, 10_000 - 6400);
    let compute = isolated(3600).max(serialized(1, 3600));
    let transfer = 0.215 + 0.000937 * 5760.0;
    assert_eq!(ms(e.compute_ms), compute);
    assert_eq!(ms(e.transfer_ms), transfer);
    assert_eq!(ms(e.ttft_ms), compute + transfer);
    // Every token is cached, pulled or computed.
    assert_eq!(10 * 64 + e.pulled_tokens + e.new_tokens, 10_000);
}

#[test]
fn a_pull_that_does_not_pay() {
    let p = tuned(|o| o.l3_read_per_token_ms = Some(number(1.0)));
    let e = p.estimate_ttft(10_000, 10, 100, 0, 64);
    assert_eq!(e.pulled_tokens, 0);
    assert_eq!(e.new_tokens, 9360);
}

#[test]
fn a_pull_of_equal_cost_is_not_made() {
    // Computing costs nothing, and neither does pulling.
    let p = tuned(|o| {
        o.compute_slope_ms = Some(number(0.0));
        o.compute_quad_ms = Some(number(0.0));
        o.l3_read_overhead_ms = Some(number(0.0));
        o.l3_read_per_token_ms = Some(number(0.0));
    });
    assert_eq!(p.estimate_ttft(10_000, 10, 100, 0, 64).pulled_tokens, 0);
}

#[test]
fn the_threshold_keeps_small_pulls_away() {
    let p = policy();
    assert_eq!(p.estimate_ttft(10_000, 10, 14, 50, 64).pulled_tokens, 0);
    assert_eq!(p.estimate_ttft(10_000, 10, 15, 50, 64).pulled_tokens, 5 * 64);
    let p = tuned(|o| o.balancing_threshold = Some(0));
    assert_eq!(p.estimate_ttft(10_000, 10, 10, 50, 64).pulled_tokens, 0);
    assert_eq!(p.estimate_ttft(10_000, 10, 11, 500, 64).pulled_tokens, 64);
    // The largest threshold of all switches pulls off.
    let p = tuned(|o| o.balancing_threshold = Some(u32::MAX));
    assert_eq!(p.estimate_ttft(10_000, 10, 100, 50, 64).pulled_tokens, 0);
}

#[test]
fn a_prefix_longer_than_the_prompt_leaves_nothing_to_compute() {
    let e = policy().estimate_ttft(100, 10, 10, 0, 64);
    assert_eq!(e.new_tokens, 0);
    assert_eq!(ms(e.ttft_ms), 14.9);
}

#[test]
fn a_prompt_cached_in_full_costs_the_larger_overhead() {
    for c in [1usize, 5, 1000] {
        assert_eq!(ms(policy().t_compute(c, 0)), 14.9);
    }
    let p = tuned(|o| o.compute_overhead_ms = Some(number(20.25)));
    assert_eq!(ms(p.t_compute(3, 0)), 20.25);
}

#[test]
fn a_longer_queue_never_looks_cheaper() {
    let p = policy();
    let mut last = 0.0;
    for depth in 0..300usize {
        let e = p.estimate_ttft(20_000, 3, 200, depth, 64);
        assert!(ms(e.ttft_ms) >= last);
        assert!(ms(e.ttft_ms) <= ms(p.t_compute(depth + 1, 20_000 - 192)));
        last = ms(e.ttft_ms);
    }
}

#[test]
fn a_longer_prompt_never_looks_cheaper() {
    for (local, best) in [(3u32, 200u32), (3, 5), (0, 0), (40, 40)] {
        for depth in [0usize, 7] {
            let mut last = 0.0;
            for n in (0..40_000usize).step_by(37) {
                let e = policy().estimate_ttft(n, local, best, depth, 64);
                assert!(ms(e.ttft_ms) >= last);
                last = ms(e.ttft_ms);
            }
        }
    }
}

#[test]
fn a_negative_zero_costs_as_much_as_zero() {
    let p = tuned(|o| {
        o.compute_overhead_ms = Some(number(-0.0));
        o.compute_slope_ms = Some(number(-0.0));
        o.compute_quad_ms = Some(number(-0.0));
        o.load_overhead_ms = Some(number(-0.0));
    });
    for (c, n) in [(1usize, 0usize), (4, 0), (4, 500)] {
        assert_eq!(ms(p.t_compute(c, n)), 0.0);
    }
}
