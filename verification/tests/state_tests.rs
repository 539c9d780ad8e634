//! Tests for the float-string analyzer.

use lexical_core::error::{Error, ErrorCode};
use lexical_core::state::{FloatState, RawFloatState};

fn new_state(integer: &[u8], fraction: &[u8], exponent: &[u8]) -> RawFloatState {
    RawFloatState {
        integer: integer.to_vec(),
        fraction: fraction.to_vec(),
        exponent: exponent.to_vec(),
    }
}

fn check_parse(radix: u32, digits: &str, expected: Result<RawFloatState, Error>) {
    match RawFloatState::parse(radix, digits.as_bytes(), 0) {
        Ok(v) => {
            let expected = expected.unwrap();
            assert_eq!(v.integer, expected.integer);
            assert_eq!(v.fraction, expected.fraction);
            assert_eq!(v.exponent, expected.exponent);
        }
        Err(e) => assert_eq!(e, expected.err().unwrap()),
    }
}

#[test]
fn parse_test() {
    // Valid
    check_parse(10, "1.2345", Ok(new_state(b"1", b"2345", b"")));
    check_parse(10, "12.345", Ok(new_state(b"12", b"345", b"")));
    check_parse(10, "12345.6789", Ok(new_state(b"12345", b"6789", b"")));
    check_parse(10, "1.2345e10", Ok(new_state(b"1", b"2345", b"10")));
    check_parse(10, "1.2345e+10", Ok(new_state(b"1", b"2345", b"+10")));
    check_parse(10, "1.2345e-10", Ok(new_state(b"1", b"2345", b"-10")));
    check_parse(10, "100000000000000000000", Ok(new_state(b"100000000000000000000", b"", b"")));
    check_parse(10, "100000000000000000001", Ok(new_state(b"100000000000000000001", b"", b"")));
    check_parse(10, "179769313486231580793728971405303415079934132710037826936173778980444968292764750946649017977587207096330286416692887910946555547851940402630657488671505820681908902000708383676273854845817711531764475730270069855571366959622842914819860834936475292719074168444365510704342711559699508093042880177904174497791.9999999999999999999999999999999999999999999999999999999999999999999999", Ok(new_state(b"179769313486231580793728971405303415079934132710037826936173778980444968292764750946649017977587207096330286416692887910946555547851940402630657488671505820681908902000708383676273854845817711531764475730270069855571366959622842914819860834936475292719074168444365510704342711559699508093042880177904174497791", b"9999999999999999999999999999999999999999999999999999999999999999999999", b"")));
    check_parse(10, "1009e-31", Ok(new_state(b"1009", b"", b"-31")));
    check_parse(10, "001.0", Ok(new_state(b"1", b"", b"")));

    // Invalid
    check_parse(10, "1.2345/", Err((ErrorCode::InvalidDigit, 6).into()));
    check_parse(10, "1.2345e", Err((ErrorCode::EmptyExponent, 7).into()));
    check_parse(10, ".", Err((ErrorCode::EmptyFraction, 1).into()));

    // Invalid exponent character
    check_parse(10, "1^45", Err((ErrorCode::InvalidDigit, 1).into()));

    // Trailing characters
    check_parse(10, "1e45 ", Err((ErrorCode::InvalidDigit, 4).into()));
    check_parse(10, "1e45-", Err((ErrorCode::InvalidDigit, 4).into()));
    check_parse(10, "1e45+", Err((ErrorCode::InvalidDigit, 4).into()));
    check_parse(10, "1e45a", Err((ErrorCode::InvalidDigit, 4).into()));
}

#[test]
fn raw_exponent_test() {
    assert_eq!(0, new_state(b"1", b"2345", b"").raw_exponent(10));
    assert_eq!(0, new_state(b"1", b"2345", b"0").raw_exponent(10));
    assert_eq!(0, new_state(b"1", b"2345", b"+0").raw_exponent(10));
    assert_eq!(0, new_state(b"1", b"2345", b"-0").raw_exponent(10));
    assert_eq!(5, new_state(b"1", b"2345", b"5").raw_exponent(10));
    assert_eq!(123, new_state(b"1", b"2345", b"+123").raw_exponent(10));
    assert_eq!(i32::MAX, new_state(b"1", b"2345", b"4294967296").raw_exponent(10));
    assert_eq!(i32::MAX, new_state(b"1", b"2345", b"+4294967296").raw_exponent(10));
    assert_eq!(i32::MIN, new_state(b"1", b"2345", b"-4294967296").raw_exponent(10));
}

#[test]
fn scientific_exponent_test() {
    // Check "1.2345", simple.
    let state = FloatState {
        integer: "1".as_bytes().to_vec(),
        fraction: "2345".as_bytes().to_vec(),
        digits_start: 0,
        truncated: 0,
        raw_exponent: 0,
    };
    assert_eq!(state.scientific_exponent(), 0);

    // Check "0.12345", simple.
    let state = FloatState {
        integer: "".as_bytes().to_vec(),
        fraction: "12345".as_bytes().to_vec(),
        digits_start: 0,
        truncated: 0,
        raw_exponent: 0,
    };
    assert_eq!(state.scientific_exponent(), -1);
}
