//! Tests for the integer parser across widths, signedness and radices.

use lexical_core::atoi::{
    atoi16_radix_slice, atoi16_slice, atoi32_slice, atoi64_slice, atoi8_radix_slice, atoi8_slice,
    atou16_slice, atou32_slice, atou64_slice, atou8_radix_slice, atou8_slice,
};
use lexical_core::error::ErrorCode;

const DATA: [(u8, &'static str); 35] = [
    (2, "100101"),
    (3, "1101"),
    (4, "211"),
    (5, "122"),
    (6, "101"),
    (7, "52"),
    (8, "45"),
    (9, "41"),
    (10, "37"),
    (11, "34"),
    (12, "31"),
    (13, "2B"),
    (14, "29"),
    (15, "27"),
    (16, "25"),
    (17, "23"),
    (18, "21"),
    (19, "1I"),
    (20, "1H"),
    (21, "1G"),
    (22, "1F"),
    (23, "1E"),
    (24, "1D"),
    (25, "1C"),
    (26, "1B"),
    (27, "1A"),
    (28, "19"),
    (29, "18"),
    (30, "17"),
    (31, "16"),
    (32, "15"),
    (33, "14"),
    (34, "13"),
    (35, "12"),
    (36, "11"),
];

#[test]
fn atou8_base10_test() {
    assert_eq!(Ok(0), atou8_slice(b"0"));
    assert_eq!(Ok(127), atou8_slice(b"127"));
    assert_eq!(Ok(128), atou8_slice(b"128"));
    assert_eq!(Ok(255), atou8_slice(b"255"));
    assert_eq!(Err((ErrorCode::InvalidDigit, 0).into()), atou8_slice(b"-1"));
    assert_eq!(Err((ErrorCode::InvalidDigit, 1).into()), atou8_slice(b"1a"));
}

#[test]
fn atou8_basen_test() {
    for (b, s) in DATA.iter() {
        assert_eq!(atou8_radix_slice(*b as u32, s.as_bytes()), Ok(37));
    }
}

#[test]
fn atoi8_base10_test() {
    assert_eq!(Ok(0), atoi8_slice(b"0"));
    assert_eq!(Ok(127), atoi8_slice(b"127"));
    assert_eq!(Err((ErrorCode::Overflow, 2).into()), atoi8_slice(b"128"));
    assert_eq!(Err((ErrorCode::Overflow, 2).into()), atoi8_slice(b"255"));
    assert_eq!(Ok(-1), atoi8_slice(b"-1"));
    assert_eq!(Err((ErrorCode::InvalidDigit, 1).into()), atoi8_slice(b"1a"));
}

#[test]
fn atoi8_basen_test() {
    for (b, s) in DATA.iter() {
        assert_eq!(atoi8_radix_slice(*b as u32, s.as_bytes()), Ok(37));
    }
}

#[test]
fn atou16_base10_test() {
    assert_eq!(Ok(0), atou16_slice(b"0"));
    assert_eq!(Ok(32767), atou16_slice(b"32767"));
    assert_eq!(Ok(32768), atou16_slice(b"32768"));
    assert_eq!(Ok(65535), atou16_slice(b"65535"));
    assert_eq!(Err((ErrorCode::InvalidDigit, 0).into()), atou16_slice(b"-1"));
    assert_eq!(Err((ErrorCode::InvalidDigit, 1).into()), atou16_slice(b"1a"));
}

#[test]
fn atoi16_base10_test() {
    assert_eq!(Ok(0), atoi16_slice(b"0"));
    assert_eq!(Ok(32767), atoi16_slice(b"32767"));
    assert_eq!(Err((ErrorCode::Overflow, 4).into()), atoi16_slice(b"32768"));
    assert_eq!(Err((ErrorCode::Overflow, 4).into()), atoi16_slice(b"65535"));
    assert_eq!(Ok(-1), atoi16_slice(b"-1"));
    assert_eq!(Err((ErrorCode::InvalidDigit, 1).into()), atoi16_slice(b"1a"));
}

#[test]
fn atoi16_basen_test() {
    for (b, s) in DATA.iter() {
        assert_eq!(atoi16_radix_slice(*b as u32, s.as_bytes()), Ok(37));
    }
    assert_eq!(atoi16_radix_slice(36, b"YA"), Ok(1234));
}

#[test]
fn atou32_base10_test() {
    assert_eq!(Ok(0), atou32_slice(b"0"));
    assert_eq!(Ok(2147483647), atou32_slice(b"2147483647"));
    assert_eq!(Ok(2147483648), atou32_slice(b"2147483648"));
    assert_eq!(Ok(4294967295), atou32_slice(b"4294967295"));
    assert_eq!(Err((ErrorCode::InvalidDigit, 0).into()), atou32_slice(b"-1"));
    assert_eq!(Err((ErrorCode::InvalidDigit, 1).into()), atou32_slice(b"1a"));
}

#[test]
fn atoi32_base10_test() {
    assert_eq!(Ok(0), atoi32_slice(b"0"));
    assert_eq!(Ok(2147483647), atoi32_slice(b"2147483647"));
    assert_eq!(Err((ErrorCode::Overflow, 9).into()), atoi32_slice(b"2147483648"));
    assert_eq!(Err((ErrorCode::Overflow, 9).into()), atoi32_slice(b"4294967295"));
    assert_eq!(Ok(-1), atoi32_slice(b"-1"));
    assert_eq!(Err((ErrorCode::InvalidDigit, 1).into()), atoi32_slice(b"1a"));
}

#[test]
fn atou64_base10_test() {
    assert_eq!(Ok(0), atou64_slice(b"0"));
    assert_eq!(Ok(9223372036854775807), atou64_slice(b"9223372036854775807"));
    assert_eq!(Ok(9223372036854775808), atou64_slice(b"9223372036854775808"));
    assert_eq!(Ok(18446744073709551615), atou64_slice(b"18446744073709551615"));
    assert_eq!(Err((ErrorCode::InvalidDigit, 0).into()), atou64_slice(b"-1"));
    assert_eq!(Err((ErrorCode::InvalidDigit, 1).into()), atou64_slice(b"1a"));
}

#[test]
fn atoi64_base10_test() {
    assert_eq!(Ok(0), atoi64_slice(b"0"));
    assert_eq!(Ok(9223372036854775807), atoi64_slice(b"9223372036854775807"));
    assert_eq!(Err((ErrorCode::Overflow, 18).into()), atoi64_slice(b"9223372036854775808"));
    assert_eq!(Err((ErrorCode::Overflow, 19).into()), atoi64_slice(b"18446744073709551615"));
    assert_eq!(Ok(-1), atoi64_slice(b"-1"));
    assert_eq!(Err((ErrorCode::InvalidDigit, 1).into()), atoi64_slice(b"1a"));

    // Add tests discovered via fuzzing.
    assert_eq!(
        Err((ErrorCode::Overflow, 19).into()),
        atoi64_slice(b"406260572150672006000066000000060060007667760000000000000000000+00000006766767766666767665670000000000000000000000666")
    );
}
