use unicorn::format::{decimal_string, float_rounded, human_bytes};

/// The dashboard's formatting, done with a 64-bit float.
fn float_formatted(bytes: u64) -> String {
    let units = ["B", "KiB", "MiB", "GiB", "TiB"];
    let mut value = bytes as f64;
    let mut unit = 0;
    while value >= 1024.0 && unit < units.len() - 1 {
        value /= 1024.0;
        unit += 1;
    }
    if unit == 0 || value.fract() == 0.0 {
        format!("{value:.0} {}", units[unit])
    } else {
        format!("{value:.1} {}", units[unit])
    }
}

#[test]
fn human_bytes_small_counts_in_bytes() {
    assert_eq!(human_bytes(0), "0 B");
    assert_eq!(human_bytes(1), "1 B");
    assert_eq!(human_bytes(512), "512 B");
    assert_eq!(human_bytes(1023), "1023 B");
}

#[test]
fn human_bytes_binary_units() {
    assert_eq!(human_bytes(1024), "1 KiB");
    assert_eq!(human_bytes(1536), "1.5 KiB");
    assert_eq!(human_bytes(1024 * 1024), "1 MiB");
    assert_eq!(human_bytes(340 * 1024 * 1024), "340 MiB");
    assert_eq!(human_bytes(1288490189), "1.2 GiB");
    assert_eq!(human_bytes(1024u64.pow(4)), "1 TiB");
    assert_eq!(human_bytes(1024u64.pow(5)), "1024 TiB");
}

#[test]
fn human_bytes_whole_sizes_have_no_decimal() {
    assert_eq!(human_bytes(356_515_840), "340 MiB");
    assert_eq!(human_bytes(2 * 1024 * 1024 * 1024), "2 GiB");
    // Not a whole number of MiB, though it rounds to one: the decimal stays.
    assert_eq!(human_bytes(340 * 1024 * 1024 + 1), "340.0 MiB");
}

#[test]
fn human_bytes_rounds_ties_to_even() {
    // 1280 bytes is exactly 1.25 KiB; 1792 bytes exactly 1.75 KiB.
    assert_eq!(human_bytes(1280), "1.2 KiB");
    assert_eq!(human_bytes(1792), "1.8 KiB");
    // Just below 1024 KiB rounds up to show 1024.0 KiB.
    assert_eq!(human_bytes(1024 * 1024 - 1), "1024.0 KiB");
}

#[test]
fn human_bytes_largest_value() {
    assert_eq!(human_bytes(u64::MAX), "16777216 TiB");
}

#[test]
fn human_bytes_agrees_with_float_formatting() {
    let mut samples: Vec<u64> = Vec::new();
    for k in 0..5u32 {
        let base = 1024u64.pow(k);
        for m in [1u64, 3, 5, 7, 9, 10, 11, 13, 15, 25, 35, 45, 99, 100, 101, 1000, 1023, 1024, 1025] {
            samples.push(base.saturating_mul(m));
            samples.push(base.saturating_mul(m).saturating_add(base / 20));
            samples.push(base.saturating_mul(m).saturating_add(base / 20 + 1));
            samples.push((base.saturating_mul(m) / 10).saturating_mul(10));
        }
    }
    let mut x: u64 = 0x9e37_79b9_7f4a_7c15;
    for _ in 0..20000 {
        x ^= x << 13;
        x ^= x >> 7;
        x ^= x << 17;
        samples.push(x >> (x % 64));
    }
    for b in [9007199254740991u64, 9007199254740992, 9007199254740993, 9007199254740995, u64::MAX - 1] {
        samples.push(b);
    }
    for b in samples {
        assert_eq!(human_bytes(b), float_formatted(b), "bytes = {b}");
    }
}

#[test]
fn float_rounded_matches_conversion() {
    for b in [0u64, 1, 9007199254740992, 9007199254740993, 9007199254740995, 18014398509481987, u64::MAX] {
        assert_eq!(float_rounded(b), b as f64 as u128, "bytes = {b}");
    }
}

#[test]
fn decimal_string_digits() {
    assert_eq!(decimal_string(0), "0");
    assert_eq!(decimal_string(7), "7");
    assert_eq!(decimal_string(10), "10");
    assert_eq!(decimal_string(1234567890), "1234567890");
    assert_eq!(decimal_string(u128::MAX), u128::MAX.to_string());
}
