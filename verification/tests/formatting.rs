use find_duplicates::duplicates::DuplicateStats;
use find_duplicates::text::{decimal_string, digit_str, to_hex};

fn magnitude_of(text: &str) -> u32 {
    if text.ends_with(" bytes") {
        0
    } else if text.ends_with(" KB") {
        1
    } else if text.ends_with(" MB") {
        2
    } else if text.ends_with(" GB") {
        3
    } else {
        panic!("no unit in {}", text)
    }
}

fn by_floating_point(bytes: u64) -> String {
    const KB: u64 = 1024;
    const MB: u64 = KB * 1024;
    const GB: u64 = MB * 1024;
    if bytes >= GB {
        format!("{:.2} GB", bytes as f64 / GB as f64)
    } else if bytes >= MB {
        format!("{:.2} MB", bytes as f64 / MB as f64)
    } else if bytes >= KB {
        format!("{:.2} KB", bytes as f64 / KB as f64)
    } else {
        format!("{} bytes", bytes)
    }
}

#[test]
fn test_format_bytes() {
    assert_eq!(DuplicateStats::format_bytes(500), "500 bytes");
    assert_eq!(DuplicateStats::format_bytes(1024), "1.00 KB");
    assert_eq!(DuplicateStats::format_bytes(1536), "1.50 KB");
    assert_eq!(DuplicateStats::format_bytes(1048576), "1.00 MB");
    assert_eq!(DuplicateStats::format_bytes(1073741824), "1.00 GB");
}

#[test]
fn format_bytes_at_the_thresholds() {
    assert_eq!(DuplicateStats::format_bytes(0), "0 bytes");
    assert_eq!(DuplicateStats::format_bytes(1), "1 bytes");
    assert_eq!(DuplicateStats::format_bytes(1023), "1023 bytes");
    assert_eq!(DuplicateStats::format_bytes(1024), "1.00 KB");
    assert_eq!(DuplicateStats::format_bytes(1048575), "1024.00 KB");
    assert_eq!(DuplicateStats::format_bytes(1048576), "1.00 MB");
    assert_eq!(DuplicateStats::format_bytes(1073741823), "1024.00 MB");
    assert_eq!(DuplicateStats::format_bytes(1073741824), "1.00 GB");
    assert_eq!(DuplicateStats::format_bytes(u64::MAX), "17179869184.00 GB");
}

#[test]
fn format_bytes_rounds_to_the_nearest_hundredth() {
    // 1029 / 1024 = 1.00488..., 1030 / 1024 = 1.00585...
    assert_eq!(DuplicateStats::format_bytes(1029), "1.00 KB");
    assert_eq!(DuplicateStats::format_bytes(1030), "1.01 KB");
    // 2000 / 1024 = 1.953125
    assert_eq!(DuplicateStats::format_bytes(2000), "1.95 KB");
    // 5 * 1024 * 1024 + 512 * 1024 = 5.5 MB
    assert_eq!(DuplicateStats::format_bytes(5767168), "5.50 MB");
    assert_eq!(DuplicateStats::format_bytes(10 * 1073741824 + 107374183), "10.10 GB");
}

#[test]
fn format_bytes_sends_a_tie_to_the_even_hundredth() {
    // 1152 / 1024 = 1.125 and 1408 / 1024 = 1.375, both halfway
    assert_eq!(DuplicateStats::format_bytes(1152), "1.12 KB");
    assert_eq!(DuplicateStats::format_bytes(1408), "1.38 KB");
    assert_eq!(DuplicateStats::format_bytes(1664), "1.62 KB");
    assert_eq!(DuplicateStats::format_bytes(1920), "1.88 KB");
}

#[test]
fn format_bytes_is_exact_for_counts_beyond_what_a_double_holds() {
    // 2^53 + 2^27 + 1 bytes are a little more than 8388608.125 GB
    assert_eq!(DuplicateStats::format_bytes(9007199388958721), "8388608.13 GB");
    // 2^53 + 2^27 bytes are 8388608.125 GB exactly
    assert_eq!(DuplicateStats::format_bytes(9007199388958720), "8388608.12 GB");
    assert_eq!(DuplicateStats::format_bytes(9007199388958719), "8388608.12 GB");
}

#[test]
fn format_bytes_agrees_with_floating_point_division() {
    let mut samples: Vec<u64> = Vec::new();
    for b in 0u64..5000 {
        samples.push(b);
    }
    for k in 0u64..4000 {
        samples.push(1_000_000 + k * 1237);
        samples.push(1_073_000_000 + k * 977);
        samples.push(1_000_000_000_000 + k * 1_000_003);
        samples.push(128 * (2 * k + 1));
        samples.push(131072 * (2 * k + 1));
        samples.push(134217728 * (2 * k + 1));
    }
    for shift in 0..53 {
        samples.push(1u64 << shift);
        samples.push((1u64 << shift) - 1);
        samples.push((1u64 << shift) + 1);
    }
    for bytes in samples {
        assert_eq!(DuplicateStats::format_bytes(bytes), by_floating_point(bytes), "{}", bytes);
    }
}

#[test]
fn format_bytes_never_falls_to_a_smaller_unit() {
    let mut previous = 0;
    let mut bytes: u64 = 0;
    while bytes < (1 << 36) {
        let unit = magnitude_of(&DuplicateStats::format_bytes(bytes));
        assert!(unit >= previous);
        previous = unit;
        bytes = bytes + bytes / 3 + 1;
    }
    assert_eq!(previous, 3);
}

#[test]
fn decimal_string_writes_numbers() {
    assert_eq!(decimal_string(0), "0");
    assert_eq!(decimal_string(7), "7");
    assert_eq!(decimal_string(10), "10");
    assert_eq!(decimal_string(1234567890), "1234567890");
    assert_eq!(decimal_string(u64::MAX), "18446744073709551615");
    for n in 0u64..2000 {
        assert_eq!(decimal_string(n), n.to_string());
    }
}

#[test]
fn digit_str_writes_one_digit() {
    let expected = "0123456789abcdef";
    for d in 0u8..16 {
        assert_eq!(digit_str(d), &expected[d as usize..d as usize + 1]);
    }
}

#[test]
fn to_hex_writes_two_digits_for_each_byte() {
    assert_eq!(to_hex(&[]), "");
    assert_eq!(to_hex(&[0]), "00");
    assert_eq!(to_hex(&[10, 20, 30]), "0a141e");
    assert_eq!(to_hex(&[0xde, 0xad, 0xbe, 0xef, 0x01, 0xf0]), "deadbeef01f0");
    let all: Vec<u8> = (0u8..=255).collect();
    let expected: String = all.iter().map(|b| format!("{:02x}", b)).collect();
    assert_eq!(to_hex(&all), expected);
}
