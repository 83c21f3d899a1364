use station_stats::{FixedPointNum, ParseError};

fn tenths(token: &[u8]) -> i64 {
    FixedPointNum::parse(token).unwrap().0
}

#[test]
fn test_fp_internal() {
    assert_eq!(tenths(b"12"), 120);
    assert_eq!(tenths(b"12.3"), 123);
    assert_eq!(tenths(b"-12.3"), -123);
    assert_eq!(tenths(b"-99.9"), -999);
    assert_eq!(tenths(b"0"), 0);
    assert_eq!(tenths(b"0.1"), 1);
    assert_eq!(tenths(b"-0.1"), -1);
}

#[test]
fn main_test_fp_internal() {
    assert_eq!(FixedPointNum::parse(b"12").unwrap().0, 120);
    assert_eq!(FixedPointNum::parse(b"12.3").unwrap().0, 123);
    assert_eq!(FixedPointNum::parse(b"-12.3").unwrap().0, -123);
    assert_eq!(FixedPointNum::parse(b"-99.9").unwrap().0, -999);
    assert_eq!(FixedPointNum::parse(b"0").unwrap().0, 0);
    assert_eq!(FixedPointNum::parse(b"0.1").unwrap().0, 1);
    assert_eq!(FixedPointNum::parse(b"-0.1").unwrap().0, -1);
}

#[test]
fn decode_extremes() {
    assert_eq!(tenths(b"99.9"), 999);
    assert_eq!(tenths(b"-99"), -990);
    assert_eq!(tenths(b"5"), 50);
    assert_eq!(tenths(b"07.5"), 75);
}

#[test]
fn decode_matches_real_value() {
    let tokens = ["12", "12.3", "-12.3", "-99.9", "0", "0.1", "-0.1", "99.9", "7", "-3.2"];
    for t in tokens {
        let real: f64 = t.parse().unwrap();
        let decoded = tenths(t.as_bytes()) as f64 / 10.0;
        assert!((decoded - real).abs() < 1e-9, "{}", t);
    }
}

#[test]
fn decode_rejects_tokens_outside_grammar() {
    let bad: [&[u8]; 12] = [
        b"", b"-", b"123", b"1.23", b"1.", b".5", b"12.", b"--1", b"1a", b"+1", b"1.2.3", b"100.0",
    ];
    for t in bad {
        assert_eq!(FixedPointNum::parse(t), Err(ParseError));
    }
}
