use esolang::decimal::{decimal_bytes, parse_cell};

#[test]
fn renders_zero() {
    assert_eq!(decimal_bytes(0), b"0".to_vec());
}

#[test]
fn renders_single_digits() {
    assert_eq!(decimal_bytes(3), b"3".to_vec());
    assert_eq!(decimal_bytes(9), b"9".to_vec());
}

#[test]
fn renders_two_digits() {
    assert_eq!(decimal_bytes(10), b"10".to_vec());
    assert_eq!(decimal_bytes(42), b"42".to_vec());
}

#[test]
fn renders_three_digits() {
    assert_eq!(decimal_bytes(100), b"100".to_vec());
    assert_eq!(decimal_bytes(127), b"127".to_vec());
}

#[test]
fn renders_negative_values() {
    assert_eq!(decimal_bytes(-5), b"-5".to_vec());
    assert_eq!(decimal_bytes(-42), b"-42".to_vec());
    assert_eq!(decimal_bytes(-128), b"-128".to_vec());
}

#[test]
fn parses_plain_and_signed_values() {
    assert_eq!(parse_cell(b"0"), Some(0));
    assert_eq!(parse_cell(b"5"), Some(5));
    assert_eq!(parse_cell(b"+7"), Some(7));
    assert_eq!(parse_cell(b"-3"), Some(-3));
    assert_eq!(parse_cell(b"127"), Some(127));
    assert_eq!(parse_cell(b"-128"), Some(-128));
    assert_eq!(parse_cell(b"007"), Some(7));
}

#[test]
fn rejects_out_of_range_values() {
    assert_eq!(parse_cell(b"128"), None);
    assert_eq!(parse_cell(b"-129"), None);
    assert_eq!(parse_cell(b"99999999999999999999"), None);
}

#[test]
fn rejects_malformed_lines() {
    assert_eq!(parse_cell(b""), None);
    assert_eq!(parse_cell(b"-"), None);
    assert_eq!(parse_cell(b"+"), None);
    assert_eq!(parse_cell(b" 5"), None);
    assert_eq!(parse_cell(b"12a"), None);
    assert_eq!(parse_cell(b"--4"), None);
    assert_eq!(parse_cell(b"4.0"), None);
}

#[test]
fn round_trips_every_cell_value() {
    let mut v: i16 = -128;
    while v <= 127 {
        let cell = v as i8;
        assert_eq!(parse_cell(&decimal_bytes(cell)), Some(cell));
        v += 1;
    }
}
