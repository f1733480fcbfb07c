//! Tests for the size token parser.

use disk_report::size::parse_size_bytes;

#[test]
fn plain_bytes() {
    assert_eq!(parse_size_bytes(b"940"), 940);
    assert_eq!(parse_size_bytes(b" 47 "), 47);
    assert_eq!(parse_size_bytes(b"0"), 0);
}

#[test]
fn units_binary_multipliers() {
    assert_eq!(parse_size_bytes(b"1 K"), 1024);
    assert_eq!(parse_size_bytes(b"1 KB"), 1024);
    assert_eq!(parse_size_bytes(b"1 MB"), 1048576);
    assert_eq!(parse_size_bytes(b"1 GB"), 1073741824);
    assert_eq!(parse_size_bytes(b"2T"), 2199023255552);
    assert_eq!(parse_size_bytes(b"10mb"), 10485760);
    assert_eq!(parse_size_bytes(b"7 Gb"), 7516192768);
}

#[test]
fn fractional_dot() {
    // 12.5 GB = 12 GiB + half a GiB, truncated exactly
    assert_eq!(parse_size_bytes(b"12.5 GB"), 13421772800);
}

#[test]
fn fractional_comma() {
    // 3,2 MB: the comma reads as a fractional separator
    assert_eq!(parse_size_bytes(b"3,2 MB"), 3355443);
}

#[test]
fn thousands_separator_reads_as_fraction() {
    // "1,234" is treated as 1.234, not as one thousand two hundred
    // thirty-four: the comma is always a fractional separator
    assert_eq!(parse_size_bytes(b"1,234"), 1);
    assert_eq!(parse_size_bytes(b"1,234 KB"), 1263);
}

#[test]
fn second_separator_continues_fraction() {
    // digits after a second separator continue the fractional places
    assert_eq!(parse_size_bytes(b"1.2.3 KB"), 1259);
}

#[test]
fn unrecognized_unit_counts_bytes() {
    assert_eq!(parse_size_bytes(b"5 XB"), 5);
    assert_eq!(parse_size_bytes(b"5 B"), 5);
    assert_eq!(parse_size_bytes(b"5 KBs"), 5);
}

#[test]
fn unit_is_first_alphabetic_run() {
    // only the first run of letters counts as the unit
    assert_eq!(parse_size_bytes(b"1 K B"), 1024);
    assert_eq!(parse_size_bytes(b"3 MB extra"), 3145728);
}

#[test]
fn malformed_degrades_to_zero() {
    assert_eq!(parse_size_bytes(b""), 0);
    assert_eq!(parse_size_bytes(b"   "), 0);
    assert_eq!(parse_size_bytes(b"garbage"), 0);
    assert_eq!(parse_size_bytes(b"..,,"), 0);
}

#[test]
fn round_trip_integer_tokens() {
    for n in [0u64, 1, 9, 10, 123, 4096, 999_999] {
        let token = format!("{} KB", n);
        assert_eq!(parse_size_bytes(token.as_bytes()), (n * 1024) as i64);
        let token = format!("{}MB", n);
        assert_eq!(parse_size_bytes(token.as_bytes()), (n * 1048576) as i64);
        let token = format!("{}", n);
        assert_eq!(parse_size_bytes(token.as_bytes()), n as i64);
    }
}

#[test]
fn saturates_at_i64_max() {
    assert_eq!(parse_size_bytes(b"99999999999999999999 TB"), i64::MAX);
    assert_eq!(parse_size_bytes(b"9223372036854775807"), i64::MAX);
    assert_eq!(parse_size_bytes(b"92233720368547758079999"), i64::MAX);
}

#[test]
fn interior_noise_is_skipped() {
    // non-digit, non-separator bytes inside the number are skipped
    assert_eq!(parse_size_bytes(b"1 000"), 1000);
    assert_eq!(parse_size_bytes(b"4-2"), 42);
}
