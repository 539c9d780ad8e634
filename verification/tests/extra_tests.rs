//! Tests for the documented laws on concrete values, the edge cases of
//! the grammar, the error taxonomy, and the big-number helpers.

use lexical_core::atoi::{
    atoi8_slice, atou16_slice, atou32_slice, atou64_slice, atou8_radix_slice, atou8_slice,
    standalone_mantissa, standalone_signed, standalone_unsigned,
};
use lexical_core::bignum::{Bigfloat, Bigint, ExtendedFloat, ToBigfloat};
use lexical_core::error::{Error, ErrorCode};
use lexical_core::exponent::{mantissa_exponent, scientific_exponent};
use lexical_core::small_powers::get_small_powers;
use lexical_core::state::{consume_digits, RawFloatState};
use core::cmp::Ordering;

fn err(code: ErrorCode, index: usize) -> Error {
    Error { code, index }
}

// Round trip: parsing the canonical representation gives the value back.
#[test]
fn round_trip_test() {
    assert_eq!(Ok(255), atou8_radix_slice(16, b"ff"));
    assert_eq!(Ok(255), atou8_radix_slice(16, b"FF"));
    assert_eq!(Ok(-128), atoi8_slice(b"-128"));
    assert_eq!(Ok(i64::MIN), lexical_core::atoi::atoi64_slice(b"-9223372036854775808"));
    assert_eq!(Ok(u64::MAX), atou64_slice(b"18446744073709551615"));
    assert_eq!(
        Ok(100000000000000000000u128),
        standalone_unsigned(10, b"100000000000000000000", u128::MAX).map(|v| v)
    );
}

// Overflow detection: one then ceil(W*log10(2)) zeros, index of the last digit.
#[test]
fn overflow_positions_test() {
    assert_eq!(Err(err(ErrorCode::Overflow, 3)), atou8_slice(b"1000"));
    assert_eq!(Err(err(ErrorCode::Overflow, 5)), atou16_slice(b"100000"));
    assert_eq!(Err(err(ErrorCode::Overflow, 10)), atou32_slice(b"10000000000"));
    assert_eq!(Err(err(ErrorCode::Overflow, 20)), atou64_slice(b"100000000000000000000"));
}

// Positional errors: the reported index is the length of the valid prefix.
#[test]
fn positional_error_test() {
    assert_eq!(Err(err(ErrorCode::InvalidDigit, 3)), atou32_slice(b"123x"));
    assert_eq!(Err(err(ErrorCode::InvalidDigit, 4)), atou32_slice(b"+123x"));
}

// Leading-sign discipline.
#[test]
fn sign_discipline_test() {
    assert_eq!(atou8_slice(b"12"), atou8_slice(b"+12"));
    assert_eq!(Ok(12), atou8_slice(b"+12"));
    assert_eq!(Err(err(ErrorCode::InvalidDigit, 0)), atou8_slice(b"-12"));
    assert_eq!(Ok(-12), atoi8_slice(b"-12"));
    assert_eq!(Err(err(ErrorCode::InvalidDigit, 1)), atou8_slice(b"++12"));
    assert_eq!(Err(err(ErrorCode::InvalidDigit, 1)), atoi8_slice(b"+-12"));
    assert_eq!(Err(err(ErrorCode::InvalidDigit, 1)), atoi8_slice(b"--12"));
}

// The Empty and Underflow variants, with the index of the detection.
#[test]
fn empty_and_underflow_test() {
    assert_eq!(Err(err(ErrorCode::Empty, 0)), atou8_slice(b""));
    assert_eq!(Err(err(ErrorCode::Empty, 1)), atou8_slice(b"+"));
    assert_eq!(Err(err(ErrorCode::Empty, 1)), atoi8_slice(b"-"));
    assert_eq!(Err(err(ErrorCode::Underflow, 3)), atoi8_slice(b"-129"));
    assert_eq!(
        Err(err(ErrorCode::Underflow, 3)),
        standalone_signed(10, b"-129", i8::MIN as i128, i8::MAX as i128)
    );
}

// Zero trimming is pure: prepended integer zeros and appended fraction
// zeros leave the extracted state unchanged.
#[test]
fn zero_trimming_test() {
    let plain = RawFloatState::parse(10, b"1.25", 0).unwrap();
    let padded = RawFloatState::parse(10, b"0001.2500", 0).unwrap();
    assert_eq!(plain.integer, padded.integer);
    assert_eq!(plain.fraction, padded.fraction);
    assert_eq!(plain.exponent, padded.exponent);
    assert_eq!(padded.integer, b"1");
    assert_eq!(padded.fraction, b"25");

    let lead = RawFloatState::parse(10, b".5e3", 0).unwrap();
    let lead_padded = RawFloatState::parse(10, b"00.50e3", 0).unwrap();
    assert_eq!(lead.integer, lead_padded.integer);
    assert_eq!(lead.fraction, lead_padded.fraction);
    assert_eq!(lead.exponent, lead_padded.exponent);
    assert_eq!(lead_padded.integer, b"");
    assert_eq!(lead_padded.fraction, b"5");
    assert_eq!(lead_padded.exponent, b"3");
}

// The grammar at other radices: markers and digit sets follow the radix.
#[test]
fn radix_grammar_test() {
    // 'e' is a digit at radix 16, so the whole literal is an integer part
    let v = RawFloatState::parse(16, b"1e2", 0).unwrap();
    assert_eq!(v.integer, b"1e2");
    assert_eq!(v.fraction, b"");
    assert_eq!(v.exponent, b"");
    // the exponent marker above radix 10 is '^'
    let v = RawFloatState::parse(16, b"1.8^2", 0).unwrap();
    assert_eq!(v.integer, b"1");
    assert_eq!(v.fraction, b"8");
    assert_eq!(v.exponent, b"2");
    // the marker compares case-insensitively
    let v = RawFloatState::parse(10, b"1E5", 0).unwrap();
    assert_eq!(v.exponent, b"5");
    // a sign alone after the marker is an empty exponent
    assert_eq!(
        Err(err(ErrorCode::EmptyExponent, 3)),
        RawFloatState::parse(10, b"1e+", 0).map(|_| ())
    );
    // a base offset shifts every reported index
    assert_eq!(
        Err(err(ErrorCode::InvalidDigit, 7)),
        RawFloatState::parse(10, b"1x", 6).map(|_| ())
    );
}

// The processed state locates the first significant digit.
#[test]
fn process_test() {
    let state = RawFloatState::parse(10, b"0.00123", 0).unwrap();
    assert_eq!(state.integer, b"");
    assert_eq!(state.fraction, b"00123");
    let raw_exponent = state.raw_exponent(10);
    let fstate = state.process(0, raw_exponent);
    assert_eq!(fstate.digits_start, 2);
    assert_eq!(fstate.integer_digits(), 0);
    assert_eq!(fstate.fraction_digits(), 3);
    assert_eq!(fstate.mantissa_digits(), 3);
    assert_eq!(fstate.mantissa_iter(), b"123");
    assert_eq!(fstate.scientific_exponent(), -3);
    assert_eq!(fstate.mantissa_exponent(), -5);
}

// The mantissa accumulator stops on overflow and reports the leftovers.
#[test]
fn standalone_mantissa_test() {
    assert_eq!((12345, 0), standalone_mantissa(10, b"12345"));
    // u64::MAX itself fits; the four digits after it are left over
    assert_eq!((u64::MAX, 4), standalone_mantissa(10, b"184467440737095516159999"));
}

#[test]
fn consume_digits_test() {
    assert_eq!(3, consume_digits(10, b"123abc"));
    assert_eq!(6, consume_digits(16, b"123abcx"));
    assert_eq!(0, consume_digits(10, b".5"));
}

// The small-power tables hold every power of the radix that fits a limb.
#[test]
fn small_powers_test() {
    let p10 = get_small_powers(10);
    assert_eq!(p10.len(), 20);
    assert_eq!(p10[0], 1);
    assert_eq!(p10[1], 10);
    assert_eq!(p10[19], 10_000_000_000_000_000_000);
    let p5 = get_small_powers(5);
    assert_eq!(p5.len(), 28);
    assert_eq!(p5[27], 7450580596923828125);
    let p2 = get_small_powers(2);
    assert_eq!(p2.len(), 64);
    assert_eq!(p2[63], 1u64 << 63);
}

// The big-number types store little-endian limbs with no trailing zeros.
#[test]
fn bignum_test() {
    assert_eq!(Bigint::default().data, Vec::<u64>::new());
    assert_eq!(Bigint::from_u64(0).data, Vec::<u64>::new());
    assert_eq!(Bigint::from_u64(7).data, vec![7]);
    assert_eq!(Bigint::from_u128((1u128 << 64) + 5).data, vec![5, 1]);
    assert_eq!(Bigint::from_u32(42).data(), &vec![42]);

    let mut f = Bigfloat::from_u64(3);
    assert_eq!(f.exp, 0);
    f.imul_pow2(7);
    assert_eq!(f.exp, 7);
    assert_eq!(f.data, vec![3]);

    let x: ExtendedFloat<u64> = ExtendedFloat { mant: 12, exp: 5 };
    let b = x.to_bigfloat();
    assert_eq!(b.data, vec![12]);
    assert_eq!(b.exp, 5);
    let y: ExtendedFloat<u32> = ExtendedFloat { mant: 9, exp: -2 };
    let b = y.to_bigfloat();
    assert_eq!(b.data, vec![9]);
    assert_eq!(b.exp, -2);
    let z: ExtendedFloat<u128> = ExtendedFloat { mant: (1u128 << 64) + 8, exp: 1 };
    let b = z.to_bigfloat();
    assert_eq!(b.data, vec![8, 1]);
    assert_eq!(b.exp, 1);
}

// Saturating exponent arithmetic.
#[test]
fn exponent_test() {
    assert_eq!(8, mantissa_exponent(10, 2, 0));
    assert_eq!(-3, mantissa_exponent(0, 5, 2));
    assert_eq!(i32::MIN, mantissa_exponent(i32::MIN, 1, 0));
    assert_eq!(i32::MAX, mantissa_exponent(i32::MAX, 0, 1));
    assert_eq!(2, scientific_exponent(0, 3, 0));
    assert_eq!(-3, scientific_exponent(0, 0, 2));
}

// The in-place big-integer arithmetic against small independent checks.
#[test]
fn big_arithmetic_test() {
    let mut a = Bigint::from_u64(u64::MAX);
    a.iadd_small(1);
    assert_eq!(a.data, vec![0, 1]);
    let mut a = Bigint::default();
    a.iadd_small(5);
    assert_eq!(a.data, vec![5]);

    let mut a = Bigint::from_u64(1u64 << 63);
    a.imul_small(2);
    assert_eq!(a.data, vec![0, 1]);
    let mut a = Bigint::from_u64(3);
    a.imul_small(5);
    assert_eq!(a.data, vec![15]);

    let mut a = Bigint::from_u64(7);
    a.ishl_limbs(2);
    assert_eq!(a.data, vec![0, 0, 7]);
    let mut a = Bigint::default();
    a.ishl_limbs(3);
    assert_eq!(a.data, Vec::<u64>::new());

    let mut a = Bigint::from_u128((7u128 << 64) | 9);
    a.ishr_limbs(1);
    assert_eq!(a.data, vec![7]);
    let mut a = Bigint::from_u64(5);
    a.ishr_limbs(3);
    assert_eq!(a.data, Vec::<u64>::new());

    let mut a = Bigint::from_u128(u64::MAX as u128 + (1u128 << 64));
    a.iadd(&Bigint::from_u64(1));
    assert_eq!(a.data, vec![0, 2]);
    let mut a = Bigint::from_u64(1);
    a.iadd(&Bigint::from_u128(u128::MAX >> 64 << 64 | u64::MAX as u128));
    assert_eq!(a.data, vec![0, 0, 1]);

    let mut a = Bigint::from_u64(10_000_000_000);
    a.imul(&Bigint::from_u64(10_000_000_000));
    assert_eq!(a.data, Bigint::from_u128(100_000_000_000_000_000_000u128).data);
    let mut a = Bigint::from_u64(12345);
    a.imul(&Bigint::default());
    assert_eq!(a.data, Vec::<u64>::new());

    assert_eq!(Bigint::from_u64(5).compare(&Bigint::from_u64(7)), Ordering::Less);
    assert_eq!(Bigint::from_u64(7).compare(&Bigint::from_u64(7)), Ordering::Equal);
    assert_eq!(Bigint::from_u128(1u128 << 64).compare(&Bigint::from_u64(u64::MAX)), Ordering::Greater);

    let mut a = Bigint::from_u64(1);
    *a.data_mut() = vec![9];
    assert_eq!(a.data, vec![9]);
}
