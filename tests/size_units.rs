use sizelint::error::SizelintError;
use sizelint::rules::{format_size, parse_size_string};

#[test]
fn test_parse_size_string() {
    assert_eq!(parse_size_string("100").unwrap(), 100);
    assert_eq!(parse_size_string("100B").unwrap(), 100);
    assert_eq!(parse_size_string("1KB").unwrap(), 1024);
    assert_eq!(parse_size_string("1MB").unwrap(), 1024 * 1024);
    assert_eq!(parse_size_string("1GB").unwrap(), 1024 * 1024 * 1024);
    assert_eq!(
        parse_size_string("1.5MB").unwrap(),
        (1.5 * 1024.0 * 1024.0) as u64
    );
    assert_eq!(parse_size_string("  2MB  ").unwrap(), 2 * 1024 * 1024);
}

#[test]
fn test_format_size() {
    assert_eq!(format_size(100), "100 B");
    assert_eq!(format_size(1024), "1.0 KB");
    assert_eq!(format_size(1024 * 1024), "1.0 MB");
    assert_eq!(format_size(1536 * 1024), "1.5 MB");
    assert_eq!(format_size(1024 * 1024 * 1024), "1.0 GB");
}

#[test]
fn parse_size_known_values() {
    assert_eq!(parse_size_string("1KB").unwrap(), 1024);
    assert_eq!(parse_size_string("1MB").unwrap(), 1048576);
    assert_eq!(parse_size_string("1.5MB").unwrap(), 1572864);
    assert_eq!(parse_size_string("100").unwrap(), 100);
}

#[test]
fn parse_size_ignores_surrounding_whitespace() {
    for s in ["10MB", "1.5gb", "7", "3kb"] {
        let padded = format!(" \t{s}\n ");
        assert_eq!(
            parse_size_string(&padded).unwrap(),
            parse_size_string(s).unwrap()
        );
    }
}

#[test]
fn parse_size_is_case_insensitive() {
    assert_eq!(parse_size_string("2kb").unwrap(), 2048);
    assert_eq!(parse_size_string("2Kb").unwrap(), 2048);
    assert_eq!(parse_size_string("1tb").unwrap(), 1099511627776);
    assert_eq!(parse_size_string("3b").unwrap(), 3);
}

#[test]
fn parse_size_truncates_fractions() {
    assert_eq!(parse_size_string("0.1KB").unwrap(), 102);
    assert_eq!(parse_size_string("1.999B").unwrap(), 1);
    assert_eq!(parse_size_string(".5KB").unwrap(), 512);
    assert_eq!(parse_size_string("+4KB").unwrap(), 4096);
}

#[test]
fn parse_size_saturates_at_the_largest_size() {
    assert_eq!(parse_size_string("99999999999TB").unwrap(), u64::MAX);
    assert_eq!(
        parse_size_string("99999999999999999999999999").unwrap(),
        u64::MAX
    );
}

#[test]
fn parse_size_rejects_empty_input() {
    match parse_size_string("   ") {
        Err(SizelintError::InvalidSizeFormat { input, reason }) => {
            assert_eq!(input, "");
            assert_eq!(reason, "Empty size string");
        }
        other => panic!("unexpected result: {other:?}"),
    }
}

#[test]
fn parse_size_rejects_bad_numbers() {
    match parse_size_string("abcMB") {
        Err(SizelintError::InvalidSizeFormat { input, reason }) => {
            assert_eq!(input, "abcMB");
            assert_eq!(reason, "Invalid size number: abc");
        }
        other => panic!("unexpected result: {other:?}"),
    }
    assert!(parse_size_string("1.2.3KB").is_err());
    assert!(parse_size_string("MB").is_err());
    assert!(parse_size_string("10XB").is_err());
}

#[test]
fn parse_size_rejects_negative_numbers() {
    match parse_size_string("-5MB") {
        Err(SizelintError::InvalidSizeFormat { reason, .. }) => {
            assert_eq!(reason, "Size cannot be negative");
        }
        other => panic!("unexpected result: {other:?}"),
    }
}

#[test]
fn format_size_boundaries() {
    assert_eq!(format_size(0), "0 B");
    assert_eq!(format_size(1023), "1023 B");
    assert_eq!(format_size(1024), "1.0 KB");
    assert_eq!(format_size(1536 * 1024), "1.5 MB");
    assert_eq!(format_size(1997), "1.9 KB");
    assert_eq!(format_size(1099511627776), "1.0 TB");
    assert_eq!(format_size(1099511627776 * 2048), "2048.0 TB");
    assert_eq!(format_size(u64::MAX), "16777215.9 TB");
}

#[test]
fn parse_size_reads_exponents() {
    assert_eq!(parse_size_string("1e3").unwrap(), 1000);
    assert_eq!(parse_size_string("1E+2").unwrap(), 100);
    assert_eq!(parse_size_string("1.5e3KB").unwrap(), 1536000);
    assert_eq!(parse_size_string("2E-1KB").unwrap(), 204);
    assert_eq!(parse_size_string("1e400").unwrap(), u64::MAX);
    assert_eq!(parse_size_string("1e-400TB").unwrap(), 0);
    assert!(parse_size_string("1e").is_err());
    assert!(parse_size_string("1e2.5").is_err());
    assert!(parse_size_string("1e2e3").is_err());
}

#[test]
fn parse_size_reads_infinity_and_nan() {
    assert_eq!(parse_size_string("inf").unwrap(), u64::MAX);
    assert_eq!(parse_size_string("Infinity").unwrap(), u64::MAX);
    assert_eq!(parse_size_string("INFB").unwrap(), u64::MAX);
    assert_eq!(parse_size_string("nanMB").unwrap(), 0);
    assert_eq!(parse_size_string("-NaN").unwrap(), 0);
    assert!(parse_size_string("-inf").is_err());
    assert!(parse_size_string("infinit").is_err());
}

#[test]
fn parse_size_accepts_minus_zero() {
    assert_eq!(parse_size_string("-0").unwrap(), 0);
    assert_eq!(parse_size_string("-0.0e5KB").unwrap(), 0);
    assert!(parse_size_string("-0.1").is_err());
}
