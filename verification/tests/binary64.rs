use kv_centric::Binary64;

fn number(x: f64) -> Binary64 {
    Binary64 { bits: x.to_bits() }
}

fn same(found: Binary64, expected: f64) -> bool {
    if expected.is_nan() {
        f64::from_bits(found.bits).is_nan()
    } else {
        found.bits == expected.to_bits()
    }
}

/// Bit patterns at the borders of the format.
fn borders() -> Vec<u64> {
    let mut all: Vec<u64> = Vec::new();
    for m in [
        0u64,
        1,
        2,
        3,
        0x000f_ffff_ffff_ffff,
        0x0010_0000_0000_0000,
        0x0010_0000_0000_0001,
        0x001f_ffff_ffff_ffff,
        0x0020_0000_0000_0000,
        0x1ff0_0000_0000_0000,
        0x1ff0_0000_0000_0001,
        0x3ca0_0000_0000_0000,
        0x3cb0_0000_0000_0000,
        0x3fe0_0000_0000_0000,
        0x3fef_ffff_ffff_ffff,
        0x3ff0_0000_0000_0000,
        0x3ff0_0000_0000_0001,
        0x3ff8_0000_0000_0000,
        0x402d_9999_9999_999a,
        0x4330_0000_0000_0000,
        0x4340_0000_0000_0000,
        0x4340_0000_0000_0001,
        0x5fef_ffff_ffff_ffff,
        0x5ff0_0000_0000_0000,
        0x7fdf_ffff_ffff_ffff,
        0x7fe0_0000_0000_0000,
        0x7fef_ffff_ffff_fffe,
        0x7fef_ffff_ffff_ffff,
        0x7ff0_0000_0000_0000,
        0x7ff0_0000_0000_0001,
        0x7ff8_0000_0000_0000,
    ] {
        all.push(m);
        all.push(m | 0x8000_0000_0000_0000);
    }
    all
}

/// A linear congruential sequence of bit patterns.
fn scattered(count: usize, mut state: u64) -> Vec<u64> {
    let mut all: Vec<u64> = Vec::new();
    for _ in 0..count {
        state = state.wrapping_mul(6364136223846793005).wrapping_add(1442695040888963407);
        all.push(state ^ (state >> 29));
    }
    all
}

fn agree(x: u64, y: u64) {
    let (a, b) = (f64::from_bits(x), f64::from_bits(y));
    let (p, q) = (number(a), number(b));
    assert!(same(p.plus(q), a + b), "{x:x} + {y:x}: {:x}", p.plus(q).bits);
    assert!(same(p.times(q), a * b), "{x:x} * {y:x}: {:x}", p.times(q).bits);
    assert_eq!(p.less_than(q), a < b, "{x:x} < {y:x}");
    assert_eq!(p.not_a_number(), a.is_nan(), "{x:x}");
    let larger = f64::from_bits(p.max(q).bits);
    assert!(larger == a.max(b) || (larger.is_nan() && a.max(b).is_nan()), "max {x:x} {y:x}");
}

#[test]
fn arithmetic_at_the_borders_of_the_format() {
    let all = borders();
    for &x in &all {
        for &y in &all {
            agree(x, y);
        }
    }
}

#[test]
fn arithmetic_on_scattered_patterns() {
    let xs = scattered(200_000, 1);
    let ys = scattered(200_000, 2);
    for i in 0..xs.len() {
        agree(xs[i], ys[i]);
    }
}

#[test]
fn arithmetic_on_numbers_of_near_exponents() {
    let xs = scattered(200_000, 3);
    let ys = scattered(200_000, 4);
    for i in 0..xs.len() {
        // Exponents within 64 of each other, where digits are lost and cancelled.
        let x = (xs[i] & 0x800f_ffff_ffff_ffff) | ((1000 + (xs[i] >> 55) % 64) << 52);
        let y = (ys[i] & 0x800f_ffff_ffff_ffff) | ((1000 + (ys[i] >> 55) % 64) << 52);
        agree(x, y);
        agree(x, x ^ 0x8000_0000_0000_0000);
        agree(x, (x ^ 0x8000_0000_0000_0000).wrapping_add(1));
    }
}

#[test]
fn products_that_are_subnormal() {
    let xs = scattered(100_000, 5);
    let ys = scattered(100_000, 6);
    for i in 0..xs.len() {
        let x = (xs[i] & 0x800f_ffff_ffff_ffff) | ((480 + (xs[i] >> 55) % 64) << 52);
        let y = (ys[i] & 0x800f_ffff_ffff_ffff) | ((480 + (ys[i] >> 55) % 64) << 52);
        agree(x, y);
    }
}

#[test]
fn natural_numbers() {
    let mut all: Vec<usize> = vec![0, 1, 2, 3, usize::MAX, usize::MAX - 1, usize::MAX / 2, 57344, 65536];
    for shift in 0..64u32 {
        let p: usize = 1usize << shift;
        for k in 0..4usize {
            all.push(p.wrapping_add(k));
            all.push(p.wrapping_sub(k));
            all.push(p.wrapping_add(p >> 53).wrapping_add(k));
            all.push(p.wrapping_add(p >> 54).wrapping_add(k));
        }
    }
    for n in all {
        assert_eq!(Binary64::from_usize(n).bits, (n as f64).to_bits(), "{n}");
    }
}
