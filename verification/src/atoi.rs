//! The integer parser: consumes a numeric literal with an optional leading
//! sign and accumulates its digits with checked arithmetic, reporting
//! overflow, underflow and invalid digits at the exact byte index.

use vstd::prelude::*;

use crate::digit::{
    digit_run_len, digits_val, is_digit, lemma_digit_run_len_is, lemma_digit_run_len_props,
    lemma_digits_val_nonneg, lemma_digits_val_take_monotone, lemma_digits_val_take_step,
    lemma_overflow_index_is, overflow_index, overflow_index_from, to_digit, CH_MINUS, CH_PLUS,
};
use crate::error::{Error, ErrorCode};

verus! {

/// Number of bytes an optional leading `'+'` occupies in an unsigned
/// literal.
pub open spec fn sign_offset_unsigned(s: Seq<u8>) -> int {
    if s.len() > 0 && s[0] == CH_PLUS {
        1
    } else {
        0
    }
}

/// Number of bytes an optional leading `'+'` or `'-'` occupies in a signed
/// literal.
pub open spec fn sign_offset_signed(s: Seq<u8>) -> int {
    if s.len() > 0 && (s[0] == CH_PLUS || s[0] == CH_MINUS) {
        1
    } else {
        0
    }
}

/// The outcome of accumulating the digit bytes `d` (everything after the
/// sign, whose width is `so`) against the inclusive bound `max`:
/// the whole run in range iff `Ok`, and otherwise the error whose index
/// points at the first byte that is invalid or that pushed the value past
/// the bound — whichever comes first.
pub open spec fn digits_result_unsigned(d: Seq<u8>, radix: u32, max: u128, so: int) -> Result<
    u128,
    Error,
> {
    let k = digit_run_len(d, radix);
    if digits_val(d.take(k), radix) > max {
        Err(
            Error {
                code: ErrorCode::Overflow,
                index: (so + overflow_index(d, radix, max as int)) as usize,
            },
        )
    } else if k < d.len() {
        Err(Error { code: ErrorCode::InvalidDigit, index: (so + k) as usize })
    } else {
        Ok(digits_val(d, radix) as u128)
    }
}

/// What parsing an unsigned literal returns: `Ok(n)` exactly when the input
/// is an optional `'+'` followed by one or more digits of `radix` whose
/// value `n` is at most `max`; otherwise the positioned error.
pub open spec fn spec_standalone_unsigned(s: Seq<u8>, radix: u32, max: u128) -> Result<
    u128,
    Error,
> {
    if s.len() == 0 {
        Err(Error { code: ErrorCode::Empty, index: 0 })
    } else {
        let so = sign_offset_unsigned(s);
        let d = s.skip(so);
        if d.len() == 0 {
            Err(Error { code: ErrorCode::Empty, index: so as usize })
        } else {
            digits_result_unsigned(d, radix, max, so)
        }
    }
}

/// The outcome of accumulating signed digits: the value is the digit-run
/// value negated when `neg`, bounded below by `min` and above by `max`.
pub open spec fn digits_result_signed(
    d: Seq<u8>,
    radix: u32,
    min: i128,
    max: i128,
    so: int,
    neg: bool,
) -> Result<i128, Error> {
    let k = digit_run_len(d, radix);
    let bound: int = if neg {
        -(min as int)
    } else {
        max as int
    };
    if digits_val(d.take(k), radix) > bound {
        Err(
            Error {
                code: if neg {
                    ErrorCode::Underflow
                } else {
                    ErrorCode::Overflow
                },
                index: (so + overflow_index(d, radix, bound)) as usize,
            },
        )
    } else if k < d.len() {
        Err(Error { code: ErrorCode::InvalidDigit, index: (so + k) as usize })
    } else if neg {
        Ok((-digits_val(d, radix)) as i128)
    } else {
        Ok(digits_val(d, radix) as i128)
    }
}

/// What parsing a signed literal returns: `Ok(n)` exactly when the input is
/// an optional `'+'` or `'-'` followed by one or more digits whose signed
/// value `n` lies in `[min, max]`; otherwise the positioned error.
pub open spec fn spec_standalone_signed(s: Seq<u8>, radix: u32, min: i128, max: i128) -> Result<
    i128,
    Error,
> {
    if s.len() == 0 {
        Err(Error { code: ErrorCode::Empty, index: 0 })
    } else {
        let so = sign_offset_signed(s);
        let d = s.skip(so);
        if d.len() == 0 {
            Err(Error { code: ErrorCode::Empty, index: so as usize })
        } else {
            digits_result_signed(d, radix, min, max, so, s[0] == CH_MINUS)
        }
    }
}

/// Accumulate the digit run starting at `from` against the inclusive
/// `bound`.  `Err((true, i))` reports the bound first exceeded at absolute
/// index `i`; `Err((false, i))` reports a non-digit byte at absolute index
/// `i` (with everything before it in range).
fn accumulate_digits(radix: u32, bytes: &[u8], from: usize, bound: u128) -> (r: Result<
    u128,
    (bool, usize),
>)
    requires
        2 <= radix <= 36,
        from < bytes@.len(),
    ensures
        ({
            let d = bytes@.skip(from as int);
            let k = digit_run_len(d, radix);
            match r {
                Ok(v) => digits_val(d.take(k), radix) <= bound && k == d.len() && v == digits_val(
                    d,
                    radix,
                ) && v <= bound,
                Err((over, idx)) => if over {
                    digits_val(d.take(k), radix) > bound && idx == from + overflow_index(
                        d,
                        radix,
                        bound as int,
                    )
                } else {
                    digits_val(d.take(k), radix) <= bound && k < d.len() && idx == from + k
                },
            }
        }),
{
    let ghost d = bytes@.skip(from as int);
    let mut value: u128 = 0;
    let mut i: usize = from;
    while i < bytes.len()
        invariant
            2 <= radix <= 36,
            from <= i <= bytes@.len(),
            from < bytes@.len(),
            d == bytes@.skip(from as int),
            forall|j: int| 0 <= j < i - from ==> is_digit(#[trigger] d[j], radix),
            value == digits_val(d.take(i - from), radix),
            value <= bound,
        decreases bytes@.len() - i,
    {
        let c = bytes[i];
        proof {
            assert(d[i - from] == bytes@[i as int]);
            lemma_digits_val_take_step(d, radix, i - from);
        }
        match to_digit(c, radix) {
            Some(dg) => {
                proof {
                    lemma_step_bounds(d, radix, bound as int, i - from);
                }
                let stepped: Option<u128> = match value.checked_mul(radix as u128) {
                    Some(m) => m.checked_add(dg as u128),
                    None => None,
                };
                match stepped {
                    Some(v2) if v2 <= bound => {
                        value = v2;
                    },
                    _ => {
                        return Err((true, i));
                    },
                }
            },
            None => {
                proof {
                    lemma_digit_run_len_is(d, radix, i - from);
                }
                return Err((false, i));
            },
        }
        i = i + 1;
    }
    proof {
        assert(d.take(d.len() as int) =~= d);
        lemma_digit_run_len_is(d, radix, d.len() as int);
    }
    Ok(value)
}

/// When the digits up to `n` are in range and the value through `n`
/// exceeds the bound, accumulation fails exactly at `n`, and the whole
/// digit run exceeds the bound.
proof fn lemma_step_bounds(d: Seq<u8>, radix: u32, bound: int, n: int)
    requires
        2 <= radix <= 36,
        0 <= n < d.len(),
        forall|j: int| 0 <= j < n ==> is_digit(#[trigger] d[j], radix),
        is_digit(d[n], radix),
        digits_val(d.take(n), radix) <= bound,
        digits_val(d.take(n), radix) >= 0,
    ensures
        digits_val(d.take(n + 1), radix) > bound ==> overflow_index(d, radix, bound) == n
            && digits_val(d.take(digit_run_len(d, radix)), radix) > bound && n < digit_run_len(
            d,
            radix,
        ),
{
    if digits_val(d.take(n + 1), radix) > bound {
        assert forall|j: int| 0 <= j < n implies digits_val(
            d.take(#[trigger] (j + 1)),
            radix,
        ) <= bound by {
            lemma_digits_val_take_monotone(d, radix, j + 1, n);
        }
        lemma_overflow_index_is(d, radix, bound, 0, n);
        lemma_digit_run_len_props(d, radix);
        let k = digit_run_len(d, radix);
        if k <= n {
            assert(is_digit(d[k], radix));
            assert(false);
        }
        lemma_digits_val_take_monotone(d, radix, n + 1, k);
    }
}

/// Parse an unsigned literal (optional `'+'`, then digits of `radix`) into
/// a value at most `max`, failing with the exact byte index otherwise.
pub fn standalone_unsigned(radix: u32, bytes: &[u8], max: u128) -> (r: Result<u128, Error>)
    requires
        2 <= radix <= 36,
    ensures
        r == spec_standalone_unsigned(bytes@, radix, max),
        r matches Ok(v) ==> v <= max,
{
    if bytes.len() == 0 {
        return Err(Error { code: ErrorCode::Empty, index: 0 });
    }
    let so: usize = if bytes[0] == CH_PLUS {
        1
    } else {
        0
    };
    if bytes.len() == so {
        return Err(Error { code: ErrorCode::Empty, index: so });
    }
    match accumulate_digits(radix, bytes, so, max) {
        Ok(v) => Ok(v),
        Err((over, idx)) => {
            let code = if over {
                ErrorCode::Overflow
            } else {
                ErrorCode::InvalidDigit
            };
            Err(Error { code, index: idx })
        },
    }
}

/// Parse a signed literal (optional `'+'` or `'-'`, then digits of
/// `radix`) into a value in `[min, max]`, failing with the exact byte
/// index otherwise.  The magnitude is accumulated unsigned, so `min` is
/// handled exactly even when its own magnitude has no positive
/// counterpart in the target width.
pub fn standalone_signed(radix: u32, bytes: &[u8], min: i128, max: i128) -> (r: Result<
    i128,
    Error,
>)
    requires
        2 <= radix <= 36,
        min < 0 < max,
    ensures
        r == spec_standalone_signed(bytes@, radix, min, max),
        r matches Ok(v) ==> min <= v <= max,
{
    if bytes.len() == 0 {
        return Err(Error { code: ErrorCode::Empty, index: 0 });
    }
    let neg: bool = bytes[0] == CH_MINUS;
    let so: usize = if bytes[0] == CH_PLUS || neg {
        1
    } else {
        0
    };
    if bytes.len() == so {
        return Err(Error { code: ErrorCode::Empty, index: so });
    }
    let bound: u128 = if neg {
        ((-(min + 1)) as u128) + 1
    } else {
        max as u128
    };
    match accumulate_digits(radix, bytes, so, bound) {
        Ok(v) => {
            if neg {
                if v <= i128::MAX as u128 {
                    Ok(-(v as i128))
                } else {
                    // the magnitude is exactly -min, which only happens
                    // when min is the smallest value of its width
                    proof {
                        assert(v == -(min as int));
                    }
                    Ok(min)
                }
            } else {
                Ok(v as i128)
            }
        },
        Err((over, idx)) => {
            let code = if over {
                if neg {
                    ErrorCode::Underflow
                } else {
                    ErrorCode::Overflow
                }
            } else {
                ErrorCode::InvalidDigit
            };
            Err(Error { code, index: idx })
        },
    }
}

/// What mantissa accumulation yields on an all-digit run: the value of the
/// longest prefix that fits a `u64`, and how many digits were left
/// unconsumed after the first one that no longer fit.
pub open spec fn spec_standalone_mantissa(d: Seq<u8>, radix: u32) -> (int, int) {
    let k = overflow_index(d, radix, u64::MAX as int);
    if k >= d.len() {
        (digits_val(d, radix), 0)
    } else {
        (digits_val(d.take(k), radix), d.len() - k)
    }
}

/// Accumulate an already-validated digit run into a `u64` mantissa; on
/// overflow, stop and report the count of digits that were not
/// accumulated instead of failing.
pub fn standalone_mantissa(radix: u32, digits: &[u8]) -> (r: (u64, usize))
    requires
        2 <= radix <= 36,
        forall|j: int| 0 <= j < digits@.len() ==> is_digit(#[trigger] digits@[j], radix),
    ensures
        r.0 == spec_standalone_mantissa(digits@, radix).0,
        r.1 == spec_standalone_mantissa(digits@, radix).1,
{
    let ghost d = digits@;
    let mut value: u64 = 0;
    let mut i: usize = 0;
    while i < digits.len()
        invariant
            2 <= radix <= 36,
            0 <= i <= d.len(),
            d == digits@,
            forall|j: int| 0 <= j < d.len() ==> is_digit(#[trigger] d[j], radix),
            value == digits_val(d.take(i as int), radix),
            forall|j: int| 0 <= j < i ==> digits_val(d.take(#[trigger] (j + 1)), radix)
                <= u64::MAX,
        decreases d.len() - i,
    {
        let c = digits[i];
        let dg = match to_digit(c, radix) {
            Some(dg) => dg,
            None => {
                proof {
                    assert(is_digit(d[i as int], radix));
                }
                // unreachable: every byte of the run is a digit
                return (value, 0);
            },
        };
        proof {
            lemma_digits_val_take_step(d, radix, i as int);
            lemma_digits_val_nonneg(d.take(i as int), radix);
        }
        let stepped: Option<u64> = match value.checked_mul(radix as u64) {
            Some(m) => m.checked_add(dg as u64),
            None => None,
        };
        match stepped {
            Some(v2) => {
                value = v2;
            },
            None => {
                proof {
                    lemma_overflow_index_is(d, radix, u64::MAX as int, 0, i as int);
                }
                return (value, digits.len() - i);
            },
        }
        i = i + 1;
    }
    proof {
        assert(d.take(d.len() as int) =~= d);
        lemma_overflow_index_none(d, radix, u64::MAX as int, 0);
    }
    (value, 0)
}

/// When no prefix value ever exceeds the bound, `overflow_index` is the
/// whole length.
proof fn lemma_overflow_index_none(s: Seq<u8>, radix: u32, bound: int, k: int)
    requires
        0 <= k <= s.len(),
        forall|j: int| k <= j < s.len() ==> digits_val(s.take(#[trigger] (j + 1)), radix) <= bound,
    ensures
        overflow_index_from(s, radix, bound, k) == s.len(),
    decreases s.len() - k,
{
    if k < s.len() {
        lemma_overflow_index_none(s, radix, bound, k + 1);
    }
}

/// Parse an unsigned 8-bit integer from a byte slice in the given radix.
pub fn atou8_radix_slice(radix: u32, bytes: &[u8]) -> (r: Result<u8, Error>)
    requires
        2 <= radix <= 36,
    ensures
        ({
            let sp = spec_standalone_unsigned(bytes@, radix, u8::MAX as u128);
            match r {
                Ok(v) => sp == Ok::<u128, Error>(v as u128),
                Err(e) => sp == Err::<u128, Error>(e),
            }
        }),
{
    match standalone_unsigned(radix, bytes, u8::MAX as u128) {
        Ok(v) => Ok(v as u8),
        Err(e) => Err(e),
    }
}

/// Parse an unsigned 8-bit integer from a decimal byte slice.
pub fn atou8_slice(bytes: &[u8]) -> (r: Result<u8, Error>)
    ensures
        ({
            let sp = spec_standalone_unsigned(bytes@, 10, u8::MAX as u128);
            match r {
                Ok(v) => sp == Ok::<u128, Error>(v as u128),
                Err(e) => sp == Err::<u128, Error>(e),
            }
        }),
{
    atou8_radix_slice(10, bytes)
}

/// Parse an unsigned 16-bit integer from a byte slice in the given radix.
pub fn atou16_radix_slice(radix: u32, bytes: &[u8]) -> (r: Result<u16, Error>)
    requires
        2 <= radix <= 36,
    ensures
        ({
            let sp = spec_standalone_unsigned(bytes@, radix, u16::MAX as u128);
            match r {
                Ok(v) => sp == Ok::<u128, Error>(v as u128),
                Err(e) => sp == Err::<u128, Error>(e),
            }
        }),
{
    match standalone_unsigned(radix, bytes, u16::MAX as u128) {
        Ok(v) => Ok(v as u16),
        Err(e) => Err(e),
    }
}

/// Parse an unsigned 16-bit integer from a decimal byte slice.
pub fn atou16_slice(bytes: &[u8]) -> (r: Result<u16, Error>)
    ensures
        ({
            let sp = spec_standalone_unsigned(bytes@, 10, u16::MAX as u128);
            match r {
                Ok(v) => sp == Ok::<u128, Error>(v as u128),
                Err(e) => sp == Err::<u128, Error>(e),
            }
        }),
{
    atou16_radix_slice(10, bytes)
}

/// Parse an unsigned 32-bit integer from a byte slice in the given radix.
pub fn atou32_radix_slice(radix: u32, bytes: &[u8]) -> (r: Result<u32, Error>)
    requires
        2 <= radix <= 36,
    ensures
        ({
            let sp = spec_standalone_unsigned(bytes@, radix, u32::MAX as u128);
            match r {
                Ok(v) => sp == Ok::<u128, Error>(v as u128),
                Err(e) => sp == Err::<u128, Error>(e),
            }
        }),
{
    match standalone_unsigned(radix, bytes, u32::MAX as u128) {
        Ok(v) => Ok(v as u32),
        Err(e) => Err(e),
    }
}

/// Parse an unsigned 32-bit integer from a decimal byte slice.
pub fn atou32_slice(bytes: &[u8]) -> (r: Result<u32, Error>)
    ensures
        ({
            let sp = spec_standalone_unsigned(bytes@, 10, u32::MAX as u128);
            match r {
                Ok(v) => sp == Ok::<u128, Error>(v as u128),
                Err(e) => sp == Err::<u128, Error>(e),
            }
        }),
{
    atou32_radix_slice(10, bytes)
}

/// Parse an unsigned 64-bit integer from a byte slice in the given radix.
pub fn atou64_radix_slice(radix: u32, bytes: &[u8]) -> (r: Result<u64, Error>)
    requires
        2 <= radix <= 36,
    ensures
        ({
            let sp = spec_standalone_unsigned(bytes@, radix, u64::MAX as u128);
            match r {
                Ok(v) => sp == Ok::<u128, Error>(v as u128),
                Err(e) => sp == Err::<u128, Error>(e),
            }
        }),
{
    match standalone_unsigned(radix, bytes, u64::MAX as u128) {
        Ok(v) => Ok(v as u64),
        Err(e) => Err(e),
    }
}

/// Parse an unsigned 64-bit integer from a decimal byte slice.
pub fn atou64_slice(bytes: &[u8]) -> (r: Result<u64, Error>)
    ensures
        ({
            let sp = spec_standalone_unsigned(bytes@, 10, u64::MAX as u128);
            match r {
                Ok(v) => sp == Ok::<u128, Error>(v as u128),
                Err(e) => sp == Err::<u128, Error>(e),
            }
        }),
{
    atou64_radix_slice(10, bytes)
}

/// Parse an unsigned pointer-sized integer from a byte slice in the given radix.
pub fn atousize_radix_slice(radix: u32, bytes: &[u8]) -> (r: Result<usize, Error>)
    requires
        2 <= radix <= 36,
    ensures
        ({
            let sp = spec_standalone_unsigned(bytes@, radix, usize::MAX as u128);
            match r {
                Ok(v) => sp == Ok::<u128, Error>(v as u128),
                Err(e) => sp == Err::<u128, Error>(e),
            }
        }),
{
    match standalone_unsigned(radix, bytes, usize::MAX as u128) {
        Ok(v) => Ok(v as usize),
        Err(e) => Err(e),
    }
}

/// Parse an unsigned pointer-sized integer from a decimal byte slice.
pub fn atousize_slice(bytes: &[u8]) -> (r: Result<usize, Error>)
    ensures
        ({
            let sp = spec_standalone_unsigned(bytes@, 10, usize::MAX as u128);
            match r {
                Ok(v) => sp == Ok::<u128, Error>(v as u128),
                Err(e) => sp == Err::<u128, Error>(e),
            }
        }),
{
    atousize_radix_slice(10, bytes)
}

/// Parse an unsigned 128-bit integer from a byte slice in the given radix.
pub fn atou128_radix_slice(radix: u32, bytes: &[u8]) -> (r: Result<u128, Error>)
    requires
        2 <= radix <= 36,
    ensures
        ({
            let sp = spec_standalone_unsigned(bytes@, radix, u128::MAX as u128);
            match r {
                Ok(v) => sp == Ok::<u128, Error>(v as u128),
                Err(e) => sp == Err::<u128, Error>(e),
            }
        }),
{
    match standalone_unsigned(radix, bytes, u128::MAX as u128) {
        Ok(v) => Ok(v as u128),
        Err(e) => Err(e),
    }
}

/// Parse an unsigned 128-bit integer from a decimal byte slice.
pub fn atou128_slice(bytes: &[u8]) -> (r: Result<u128, Error>)
    ensures
        ({
            let sp = spec_standalone_unsigned(bytes@, 10, u128::MAX as u128);
            match r {
                Ok(v) => sp == Ok::<u128, Error>(v as u128),
                Err(e) => sp == Err::<u128, Error>(e),
            }
        }),
{
    atou128_radix_slice(10, bytes)
}

/// Parse a signed 8-bit integer from a byte slice in the given radix.
pub fn atoi8_radix_slice(radix: u32, bytes: &[u8]) -> (r: Result<i8, Error>)
    requires
        2 <= radix <= 36,
    ensures
        ({
            let sp = spec_standalone_signed(bytes@, radix, i8::MIN as i128, i8::MAX as i128);
            match r {
                Ok(v) => sp == Ok::<i128, Error>(v as i128),
                Err(e) => sp == Err::<i128, Error>(e),
            }
        }),
{
    match standalone_signed(radix, bytes, i8::MIN as i128, i8::MAX as i128) {
        Ok(v) => Ok(v as i8),
        Err(e) => Err(e),
    }
}

/// Parse a signed 8-bit integer from a decimal byte slice.
pub fn atoi8_slice(bytes: &[u8]) -> (r: Result<i8, Error>)
    ensures
        ({
            let sp = spec_standalone_signed(bytes@, 10, i8::MIN as i128, i8::MAX as i128);
            match r {
                Ok(v) => sp == Ok::<i128, Error>(v as i128),
                Err(e) => sp == Err::<i128, Error>(e),
            }
        }),
{
    atoi8_radix_slice(10, bytes)
}

/// Parse a signed 16-bit integer from a byte slice in the given radix.
pub fn atoi16_radix_slice(radix: u32, bytes: &[u8]) -> (r: Result<i16, Error>)
    requires
        2 <= radix <= 36,
    ensures
        ({
            let sp = spec_standalone_signed(bytes@, radix, i16::MIN as i128, i16::MAX as i128);
            match r {
                Ok(v) => sp == Ok::<i128, Error>(v as i128),
                Err(e) => sp == Err::<i128, Error>(e),
            }
        }),
{
    match standalone_signed(radix, bytes, i16::MIN as i128, i16::MAX as i128) {
        Ok(v) => Ok(v as i16),
        Err(e) => Err(e),
    }
}

/// Parse a signed 16-bit integer from a decimal byte slice.
pub fn atoi16_slice(bytes: &[u8]) -> (r: Result<i16, Error>)
    ensures
        ({
            let sp = spec_standalone_signed(bytes@, 10, i16::MIN as i128, i16::MAX as i128);
            match r {
                Ok(v) => sp == Ok::<i128, Error>(v as i128),
                Err(e) => sp == Err::<i128, Error>(e),
            }
        }),
{
    atoi16_radix_slice(10, bytes)
}

/// Parse a signed 32-bit integer from a byte slice in the given radix.
pub fn atoi32_radix_slice(radix: u32, bytes: &[u8]) -> (r: Result<i32, Error>)
    requires
        2 <= radix <= 36,
    ensures
        ({
            let sp = spec_standalone_signed(bytes@, radix, i32::MIN as i128, i32::MAX as i128);
            match r {
                Ok(v) => sp == Ok::<i128, Error>(v as i128),
                Err(e) => sp == Err::<i128, Error>(e),
            }
        }),
{
    match standalone_signed(radix, bytes, i32::MIN as i128, i32::MAX as i128) {
        Ok(v) => Ok(v as i32),
        Err(e) => Err(e),
    }
}

/// Parse a signed 32-bit integer from a decimal byte slice.
pub fn atoi32_slice(bytes: &[u8]) -> (r: Result<i32, Error>)
    ensures
        ({
            let sp = spec_standalone_signed(bytes@, 10, i32::MIN as i128, i32::MAX as i128);
            match r {
                Ok(v) => sp == Ok::<i128, Error>(v as i128),
                Err(e) => sp == Err::<i128, Error>(e),
            }
        }),
{
    atoi32_radix_slice(10, bytes)
}

/// Parse a signed 64-bit integer from a byte slice in the given radix.
pub fn atoi64_radix_slice(radix: u32, bytes: &[u8]) -> (r: Result<i64, Error>)
    requires
        2 <= radix <= 36,
    ensures
        ({
            let sp = spec_standalone_signed(bytes@, radix, i64::MIN as i128, i64::MAX as i128);
            match r {
                Ok(v) => sp == Ok::<i128, Error>(v as i128),
                Err(e) => sp == Err::<i128, Error>(e),
            }
        }),
{
    match standalone_signed(radix, bytes, i64::MIN as i128, i64::MAX as i128) {
        Ok(v) => Ok(v as i64),
        Err(e) => Err(e),
    }
}

/// Parse a signed 64-bit integer from a decimal byte slice.
pub fn atoi64_slice(bytes: &[u8]) -> (r: Result<i64, Error>)
    ensures
        ({
            let sp = spec_standalone_signed(bytes@, 10, i64::MIN as i128, i64::MAX as i128);
            match r {
                Ok(v) => sp == Ok::<i128, Error>(v as i128),
                Err(e) => sp == Err::<i128, Error>(e),
            }
        }),
{
    atoi64_radix_slice(10, bytes)
}

/// Parse a signed pointer-sized integer from a byte slice in the given radix.
pub fn atoisize_radix_slice(radix: u32, bytes: &[u8]) -> (r: Result<isize, Error>)
    requires
        2 <= radix <= 36,
    ensures
        ({
            let sp = spec_standalone_signed(bytes@, radix, isize::MIN as i128, isize::MAX as i128);
            match r {
                Ok(v) => sp == Ok::<i128, Error>(v as i128),
                Err(e) => sp == Err::<i128, Error>(e),
            }
        }),
{
    match standalone_signed(radix, bytes, isize::MIN as i128, isize::MAX as i128) {
        Ok(v) => Ok(v as isize),
        Err(e) => Err(e),
    }
}

/// Parse a signed pointer-sized integer from a decimal byte slice.
pub fn atoisize_slice(bytes: &[u8]) -> (r: Result<isize, Error>)
    ensures
        ({
            let sp = spec_standalone_signed(bytes@, 10, isize::MIN as i128, isize::MAX as i128);
            match r {
                Ok(v) => sp == Ok::<i128, Error>(v as i128),
                Err(e) => sp == Err::<i128, Error>(e),
            }
        }),
{
    atoisize_radix_slice(10, bytes)
}

/// Parse a signed 128-bit integer from a byte slice in the given radix.
pub fn atoi128_radix_slice(radix: u32, bytes: &[u8]) -> (r: Result<i128, Error>)
    requires
        2 <= radix <= 36,
    ensures
        ({
            let sp = spec_standalone_signed(bytes@, radix, i128::MIN as i128, i128::MAX as i128);
            match r {
                Ok(v) => sp == Ok::<i128, Error>(v as i128),
                Err(e) => sp == Err::<i128, Error>(e),
            }
        }),
{
    match standalone_signed(radix, bytes, i128::MIN as i128, i128::MAX as i128) {
        Ok(v) => Ok(v as i128),
        Err(e) => Err(e),
    }
}

/// Parse a signed 128-bit integer from a decimal byte slice.
pub fn atoi128_slice(bytes: &[u8]) -> (r: Result<i128, Error>)
    ensures
        ({
            let sp = spec_standalone_signed(bytes@, 10, i128::MIN as i128, i128::MAX as i128);
            match r {
                Ok(v) => sp == Ok::<i128, Error>(v as i128),
                Err(e) => sp == Err::<i128, Error>(e),
            }
        }),
{
    atoi128_radix_slice(10, bytes)
}

} // verus!
