//! The digit grammar: classification of one byte as a digit of a radix,
//! the exponent-marker letter, and the numeric value of a digit run.

use vstd::prelude::*;

verus! {

/// ASCII `'0'`.
pub const CH_0: u8 = 48;

/// ASCII `'1'`.
pub const CH_1: u8 = 49;

/// ASCII `'9'`.
pub const CH_9: u8 = 57;

/// ASCII `'a'`.
pub const CH_LA: u8 = 97;

/// ASCII `'z'`.
pub const CH_LZ: u8 = 122;

/// ASCII `'A'`.
pub const CH_UA: u8 = 65;

/// ASCII `'Z'`.
pub const CH_UZ: u8 = 90;

/// ASCII `'e'`.
pub const CH_E: u8 = 101;

/// ASCII `'^'`.
pub const CH_CARET: u8 = 94;

/// ASCII `'+'`.
pub const CH_PLUS: u8 = 43;

/// ASCII `'-'`.
pub const CH_MINUS: u8 = 45;

/// ASCII `'.'`.
pub const CH_DOT: u8 = 46;

/// The numeric value a byte denotes as a digit, ignoring any radix bound:
/// `'0'..='9'` map to `0..=9`, letters map case-insensitively to `10..=35`,
/// and every other byte maps to `-1`.
pub open spec fn digit_value(c: u8) -> int {
    if CH_0 <= c <= CH_9 {
        c - CH_0
    } else if CH_LA <= c <= CH_LZ {
        c - CH_LA + 10
    } else if CH_UA <= c <= CH_UZ {
        c - CH_UA + 10
    } else {
        -1
    }
}

/// Whether `c` denotes a digit of `radix`.
pub open spec fn is_digit(c: u8, radix: u32) -> bool {
    0 <= digit_value(c) < radix
}

/// Returns `Some(k)` iff `c` denotes digit `k` in `radix`.
pub fn to_digit(c: u8, radix: u32) -> (r: Option<u32>)
    requires
        2 <= radix <= 36,
    ensures
        is_digit(c, radix) ==> r == Some(digit_value(c) as u32),
        !is_digit(c, radix) ==> r is None,
{
    let v: u32 = if c >= CH_0 && c <= CH_9 {
        (c - CH_0) as u32
    } else if c >= CH_LA && c <= CH_LZ {
        (c - CH_LA) as u32 + 10
    } else if c >= CH_UA && c <= CH_UZ {
        (c - CH_UA) as u32 + 10
    } else {
        36
    };
    if v < radix {
        Some(v)
    } else {
        None
    }
}

/// The ASCII-lowercase image of a byte.
pub open spec fn to_lower(c: u8) -> u8 {
    if CH_UA <= c <= CH_UZ {
        (c + 0x20) as u8
    } else {
        c
    }
}

/// ASCII-case-insensitive equality of two bytes.
pub fn case_insensitive_equal(a: u8, b: u8) -> (r: bool)
    ensures
        r == (to_lower(a) == to_lower(b)),
{
    let la: u8 = if a >= CH_UA && a <= CH_UZ { a + 0x20 } else { a };
    let lb: u8 = if b >= CH_UA && b <= CH_UZ { b + 0x20 } else { b };
    la == lb
}

/// The exponent-marker byte for a radix: `'e'` (compared case-insensitively)
/// while `'e'` cannot be a digit, i.e. for radix at most 10, and `'^'` for
/// every larger radix.
pub open spec fn spec_exponent_notation_char(radix: u32) -> u8 {
    if radix <= 10 {
        CH_E
    } else {
        CH_CARET
    }
}

/// Returns the exponent-marker byte for `radix`.
pub fn exponent_notation_char(radix: u32) -> (r: u8)
    ensures
        r == spec_exponent_notation_char(radix),
{
    if radix <= 10 {
        CH_E
    } else {
        CH_CARET
    }
}

/// The value of a digit sequence read most-significant first in `radix`
/// (Horner's rule).  Meaningful when every byte of `s` is a digit of
/// `radix`.
pub open spec fn digits_val(s: Seq<u8>, radix: u32) -> int
    decreases s.len(),
{
    if s.len() == 0 {
        0
    } else {
        digits_val(s.drop_last(), radix) * radix + digit_value(s.last())
    }
}

/// The length of the longest prefix of `s` made of digits of `radix`; also
/// the index of the first non-digit byte when one exists.
pub open spec fn digit_run_len(s: Seq<u8>, radix: u32) -> int
    decreases s.len(),
{
    if s.len() == 0 || !is_digit(s[0], radix) {
        0
    } else {
        1 + digit_run_len(s.skip(1), radix)
    }
}

/// `digit_run_len` is the index of the first non-digit byte: everything
/// before it is a digit, and the byte at it (when inside `s`) is not.
pub proof fn lemma_digit_run_len_props(s: Seq<u8>, radix: u32)
    ensures
        0 <= digit_run_len(s, radix) <= s.len(),
        forall|i: int| 0 <= i < digit_run_len(s, radix) ==> is_digit(#[trigger] s[i], radix),
        digit_run_len(s, radix) < s.len() ==> !is_digit(s[digit_run_len(s, radix)], radix),
    decreases s.len(),
{
    if s.len() == 0 || !is_digit(s[0], radix) {
    } else {
        lemma_digit_run_len_props(s.skip(1), radix);
        assert forall|i: int| 0 <= i < digit_run_len(s, radix) implies is_digit(
            #[trigger] s[i],
            radix,
        ) by {
            if i > 0 {
                assert(s[i] == s.skip(1)[i - 1]);
            }
        }
        if digit_run_len(s, radix) < s.len() {
            assert(s[digit_run_len(s, radix)] == s.skip(1)[digit_run_len(s.skip(1), radix)]);
        }
    }
}

/// Conversely, an index with those two properties is `digit_run_len`.
pub proof fn lemma_digit_run_len_is(s: Seq<u8>, radix: u32, n: int)
    requires
        0 <= n <= s.len(),
        forall|i: int| 0 <= i < n ==> is_digit(#[trigger] s[i], radix),
        n < s.len() ==> !is_digit(s[n], radix),
    ensures
        digit_run_len(s, radix) == n,
    decreases s.len(),
{
    if s.len() == 0 {
    } else if n == 0 {
        if is_digit(s[0], radix) {
            lemma_digit_run_len_props(s, radix);
            assert(false);
        }
    } else {
        assert(is_digit(s[0], radix));
        assert forall|i: int| 0 <= i < n - 1 implies is_digit(#[trigger] s.skip(1)[i], radix) by {
            assert(s.skip(1)[i] == s[i + 1]);
        }
        if n - 1 < s.skip(1).len() {
            assert(s.skip(1)[n - 1] == s[n]);
        }
        lemma_digit_run_len_is(s.skip(1), radix, n - 1);
    }
}

/// Extending a prefix by one digit multiplies its value by the radix and
/// adds the digit.
pub proof fn lemma_digits_val_take_step(s: Seq<u8>, radix: u32, n: int)
    requires
        0 <= n < s.len(),
    ensures
        digits_val(s.take(n + 1), radix) == digits_val(s.take(n), radix) * radix + digit_value(
            s[n],
        ),
{
    assert(s.take(n + 1).drop_last() =~= s.take(n));
    assert(s.take(n + 1).last() == s[n]);
}

/// A run of digits has a non-negative value.
pub proof fn lemma_digits_val_nonneg(s: Seq<u8>, radix: u32)
    requires
        forall|i: int| 0 <= i < s.len() ==> is_digit(#[trigger] s[i], radix),
    ensures
        digits_val(s, radix) >= 0,
    decreases s.len(),
{
    if s.len() > 0 {
        assert(forall|i: int|
            0 <= i < s.drop_last().len() ==> is_digit(#[trigger] s.drop_last()[i], radix));
        lemma_digits_val_nonneg(s.drop_last(), radix);
        assert(digits_val(s.drop_last(), radix) * radix >= 0) by (nonlinear_arith)
            requires
                digits_val(s.drop_last(), radix) >= 0,
                radix >= 0,
        ;
    }
}

/// Prefix values of a digit run are monotone in the prefix length.
pub proof fn lemma_digits_val_take_monotone(s: Seq<u8>, radix: u32, m: int, n: int)
    requires
        2 <= radix,
        0 <= m <= n <= s.len(),
        forall|i: int| 0 <= i < n ==> is_digit(#[trigger] s[i], radix),
    ensures
        digits_val(s.take(m), radix) <= digits_val(s.take(n), radix),
    decreases n - m,
{
    if m < n {
        lemma_digits_val_take_monotone(s, radix, m, n - 1);
        lemma_digits_val_take_step(s, radix, n - 1);
        assert(forall|i: int|
            0 <= i < s.take(n - 1).len() ==> is_digit(#[trigger] s.take(n - 1)[i], radix));
        lemma_digits_val_nonneg(s.take(n - 1), radix);
        let v = digits_val(s.take(n - 1), radix);
        assert(v * radix >= v) by (nonlinear_arith)
            requires
                v >= 0,
                radix >= 1,
        ;
        assert(digit_value(s[n - 1]) >= 0);
    }
}

/// The first prefix length at or after `n` whose value exceeds `bound`, or
/// `s.len()` when no prefix exceeds it.
pub open spec fn overflow_index_from(s: Seq<u8>, radix: u32, bound: int, n: int) -> int
    decreases s.len() - n,
    when 0 <= n <= s.len()
{
    if n >= s.len() {
        n
    } else if digits_val(s.take(n + 1), radix) > bound {
        n
    } else {
        overflow_index_from(s, radix, bound, n + 1)
    }
}

/// The index at which accumulation first exceeds `bound`.
pub open spec fn overflow_index(s: Seq<u8>, radix: u32, bound: int) -> int {
    overflow_index_from(s, radix, bound, 0)
}

/// Identifies `overflow_index`: accumulation first exceeds the bound at the
/// step where the prefix value first does.
pub proof fn lemma_overflow_index_is(s: Seq<u8>, radix: u32, bound: int, k: int, n: int)
    requires
        0 <= k <= n < s.len(),
        forall|j: int| k <= j < n ==> digits_val(s.take(#[trigger] (j + 1)), radix) <= bound,
        digits_val(s.take(n + 1), radix) > bound,
    ensures
        overflow_index_from(s, radix, bound, k) == n,
    decreases n - k,
{
    if k < n {
        assert(digits_val(s.take(k + 1), radix) <= bound);
        lemma_overflow_index_is(s, radix, bound, k + 1, n);
    }
}

} // verus!
