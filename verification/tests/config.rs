use kv_centric::defaults;
use kv_centric::{
    override_path, Binary64, KvCentricConfig, KvCentricOverrides, OverrideFile, OVERRIDE_ENV,
};

fn number(x: f64) -> Binary64 {
    Binary64 { bits: x.to_bits() }
}

fn fields(c: &KvCentricConfig) -> (usize, usize, [f64; 6], u32) {
    (
        c.kv_bytes_per_token,
        c.block_size,
        [
            f64::from_bits(c.compute_overhead_ms.bits),
            f64::from_bits(c.compute_slope_ms.bits),
            f64::from_bits(c.compute_quad_ms.bits),
            f64::from_bits(c.load_overhead_ms.bits),
            f64::from_bits(c.l3_read_overhead_ms.bits),
            f64::from_bits(c.l3_read_per_token_ms.bits),
        ],
        c.balancing_threshold,
    )
}

fn everything() -> KvCentricOverrides {
    KvCentricOverrides {
        kv_bytes_per_token: Some(1),
        block_size: Some(2),
        compute_overhead_ms: Some(number(3.5)),
        compute_slope_ms: Some(number(4.5)),
        compute_quad_ms: Some(number(5.5)),
        load_overhead_ms: Some(number(6.5)),
        l3_read_overhead_ms: Some(number(7.5)),
        l3_read_per_token_ms: Some(number(8.5)),
        balancing_threshold: Some(9),
    }
}

#[test]
fn default_coefficients() {
    let expected = (57344, 64, [14.8, 0.00464, 4.75e-7, 14.9, 0.215, 0.000937], 4);
    assert_eq!(fields(&KvCentricConfig::default()), expected);
}

#[test]
fn default_bit_patterns_are_those_of_the_decimals() {
    assert_eq!(defaults::KV_BYTES_PER_TOKEN, 57344);
    assert_eq!(defaults::BLOCK_SIZE, 64);
    assert_eq!(defaults::COMPUTE_OVERHEAD_MS, 14.8f64.to_bits());
    assert_eq!(defaults::COMPUTE_SLOPE_MS, 0.00464f64.to_bits());
    assert_eq!(defaults::COMPUTE_QUAD_MS, 4.75e-7f64.to_bits());
    assert_eq!(defaults::LOAD_OVERHEAD_MS, 14.9f64.to_bits());
    assert_eq!(defaults::L3_READ_OVERHEAD_MS, 0.215f64.to_bits());
    assert_eq!(defaults::L3_READ_PER_TOKEN_MS, 0.000937f64.to_bits());
    assert_eq!(defaults::BALANCING_THRESHOLD, 4);
}

#[test]
fn some_overrides_leave_the_rest() {
    let mut config = KvCentricConfig::default();
    let mut o = KvCentricOverrides::default();
    o.compute_slope_ms = Some(number(0.005));
    o.l3_read_per_token_ms = Some(number(0.0011));
    o.balancing_threshold = Some(8);
    config.apply_overrides(&o);
    let expected = (57344, 64, [14.8, 0.005, 4.75e-7, 14.9, 0.215, 0.0011], 8);
    assert_eq!(fields(&config), expected);
}

#[test]
fn every_override_takes_effect() {
    let mut config = KvCentricConfig::default();
    config.apply_overrides(&everything());
    assert_eq!(fields(&config), (1, 2, [3.5, 4.5, 5.5, 6.5, 7.5, 8.5], 9));
}

#[test]
fn no_overrides_change_nothing() {
    let mut config = KvCentricConfig::default();
    config.apply_overrides(&KvCentricOverrides::default());
    assert_eq!(fields(&config), fields(&KvCentricConfig::default()));
}

#[test]
fn overrides_twice_are_overrides_once() {
    let mut once = KvCentricConfig::default();
    once.apply_overrides(&everything());
    let mut twice = KvCentricConfig::default();
    twice.apply_overrides(&everything());
    twice.apply_overrides(&everything());
    assert_eq!(fields(&once), fields(&twice));
}

#[test]
fn the_last_override_wins() {
    let mut config = KvCentricConfig::default();
    config.apply_overrides(&everything());
    let mut later = KvCentricOverrides::default();
    later.block_size = Some(16);
    config.apply_overrides(&later);
    assert_eq!(fields(&config), (1, 16, [3.5, 4.5, 5.5, 6.5, 7.5, 8.5], 9));
}

#[test]
fn a_file_of_overrides_is_applied() {
    let mut config = KvCentricConfig::default();
    assert!(config.apply_overrides_from_file(&OverrideFile::Overrides(everything())));
    assert_eq!(fields(&config), (1, 2, [3.5, 4.5, 5.5, 6.5, 7.5, 8.5], 9));
}

#[test]
fn a_bad_file_changes_nothing() {
    let mut config = KvCentricConfig::default();
    assert!(!config.apply_overrides_from_file(&OverrideFile::Unreadable));
    assert!(!config.apply_overrides_from_file(&OverrideFile::Malformed));
    assert_eq!(fields(&config), fields(&KvCentricConfig::default()));
}

#[test]
fn the_variable_decides_whether_a_file_is_applied() {
    let file = OverrideFile::Overrides(everything());
    for blank in [None, Some(""), Some("   "), Some("\t\r\n")] {
        let mut config = KvCentricConfig::default();
        assert!(!config.apply_env_overrides(blank, &file));
        assert_eq!(fields(&config), fields(&KvCentricConfig::default()));
    }
    let mut config = KvCentricConfig::default();
    assert!(!config.apply_env_overrides(Some("/etc/kv.json"), &OverrideFile::Unreadable));
    assert!(!config.apply_env_overrides(Some("/etc/kv.json"), &OverrideFile::Malformed));
    assert_eq!(fields(&config), fields(&KvCentricConfig::default()));
    assert!(config.apply_env_overrides(Some(" /etc/kv.json "), &file));
    assert_eq!(fields(&config), (1, 2, [3.5, 4.5, 5.5, 6.5, 7.5, 8.5], 9));
}

#[test]
fn paths_are_trimmed() {
    assert_eq!(override_path(None), None);
    assert_eq!(override_path(Some("")), None);
    assert_eq!(override_path(Some(" \n\t ")), None);
    assert_eq!(override_path(Some("a")), Some("a"));
    assert_eq!(override_path(Some("  /a b/c.json\n")), Some("/a b/c.json"));
    // A zero-width space is not white space.
    assert_eq!(override_path(Some("\u{200b}")), Some("\u{200b}"));
}

#[test]
fn every_kind_of_white_space_is_trimmed() {
    let white: Vec<u32> = vec![
        0x09, 0x0a, 0x0b, 0x0c, 0x0d, 0x20, 0x85, 0xa0, 0x1680, 0x2000, 0x2001, 0x2002, 0x2003,
        0x2004, 0x2005, 0x2006, 0x2007, 0x2008, 0x2009, 0x200a, 0x2028, 0x2029, 0x202f, 0x205f,
        0x3000,
    ];
    for n in 0..0x11_0000u32 {
        if let Some(c) = char::from_u32(n) {
            let text = format!("{c}x{c}");
            let expected = if white.contains(&n) { "x" } else { text.as_str() };
            assert_eq!(override_path(Some(&text)), Some(expected), "{n:x}");
        }
    }
}

#[test]
fn the_variable_has_its_name() {
    assert_eq!(OVERRIDE_ENV, "SMG_KV_CENTRIC_CONFIG");
}
