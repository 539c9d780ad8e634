//! The library's laws, stated and proved against the parser contracts:
//! round trips for integers, exact overflow positions, positional errors,
//! leading-sign discipline, and the purity of zero trimming.

use vstd::prelude::*;

use vstd::arithmetic::power::pow;

use crate::atoi::{
    sign_offset_signed, sign_offset_unsigned, spec_standalone_signed, spec_standalone_unsigned,
};
use crate::digit::{
    digit_run_len, digit_value, digits_val, is_digit, lemma_digit_run_len_is,
    lemma_digit_run_len_props, lemma_digits_val_nonneg, lemma_overflow_index_is, CH_0, CH_1,
    CH_LA, CH_MINUS, CH_PLUS,
};
use crate::error::{Error, ErrorCode};
use crate::state::{
    ltrim_zero, rtrim_zero, spec_after_mantissa, spec_exponent_clause, spec_frac_len,
    spec_fraction_part, spec_has_dot, spec_integer_end, spec_integer_part, spec_parse,
};
use crate::digit::{spec_exponent_notation_char, to_lower, CH_DOT};

verus! {

/// The canonical (lowercase) digit byte for a value in `[0, 36)`.
pub open spec fn digit_char(v: int) -> u8 {
    if v < 10 {
        (CH_0 + v) as u8
    } else {
        (CH_LA + (v - 10)) as u8
    }
}

/// `digit_char` writes the byte whose digit value is `v`.
pub proof fn lemma_digit_char(v: int)
    requires
        0 <= v < 36,
    ensures
        digit_value(digit_char(v)) == v,
{
}

/// The canonical digits of `n` written in `radix`, most significant
/// digit first.
pub open spec fn rep_digits(n: nat, radix: nat) -> Seq<u8>
    decreases n,
    when radix >= 2
    via rep_digits_decreases
{
    if n < radix {
        seq![digit_char(n as int)]
    } else {
        rep_digits(n / radix, radix).push(digit_char((n % radix) as int))
    }
}

#[via_fn]
proof fn rep_digits_decreases(n: nat, radix: nat) {
    if n >= radix {
        assert(n / radix < n) by (nonlinear_arith)
            requires
                n >= radix,
                radix >= 2,
        ;
    }
}

/// The canonical representation of a signed value: a `'-'` before the
/// digits of the magnitude when negative.
pub open spec fn rep_signed(n: int, radix: nat) -> Seq<u8> {
    if n < 0 {
        seq![CH_MINUS] + rep_digits((-n) as nat, radix)
    } else {
        rep_digits(n as nat, radix)
    }
}

/// The canonical digits of `n` are non-empty, are all digits of the
/// radix, and carry the value `n`.
pub proof fn lemma_rep_digits(n: nat, radix: u32)
    requires
        2 <= radix <= 36,
    ensures
        rep_digits(n, radix as nat).len() >= 1,
        forall|i: int|
            0 <= i < rep_digits(n, radix as nat).len() ==> is_digit(
                #[trigger] rep_digits(n, radix as nat)[i],
                radix,
            ),
        digits_val(rep_digits(n, radix as nat), radix) == n,
    decreases n,
{
    let s = rep_digits(n, radix as nat);
    if n < radix as nat {
        lemma_digit_char(n as int);
        assert(s =~= seq![digit_char(n as int)]);
        assert(s.drop_last() =~= Seq::<u8>::empty());
        assert(digits_val(s, radix) == digits_val(Seq::<u8>::empty(), radix) * radix
            + digit_value(s.last()));
    } else {
        let q = n / (radix as nat);
        let m = n % (radix as nat);
        vstd::arithmetic::div_mod::lemma_fundamental_div_mod(n as int, radix as int);
        vstd::arithmetic::div_mod::lemma_mod_bound(n as int, radix as int);
        assert(n / (radix as nat) < n) by (nonlinear_arith)
            requires
                n >= radix as nat,
                radix >= 2,
        ;
        lemma_rep_digits(q, radix);
        let w = rep_digits(q, radix as nat);
        lemma_digit_char(m as int);
        assert(s == w.push(digit_char(m as int)));
        assert(s.drop_last() =~= w);
        assert(s.last() == digit_char(m as int));
        assert(digits_val(s, radix) == digits_val(w, radix) * radix + m);
        assert(q * radix == radix * q) by (nonlinear_arith);
        assert forall|i: int| 0 <= i < s.len() implies is_digit(#[trigger] s[i], radix) by {
            if i < w.len() {
                assert(s[i] == w[i]);
            }
        }
    }
}

/// Round trip for unsigned integers: parsing the canonical digits of any
/// in-range value yields that value back, at every radix.
pub proof fn lemma_round_trip_unsigned(n: u128, radix: u32, max: u128)
    requires
        2 <= radix <= 36,
        n <= max,
    ensures
        spec_standalone_unsigned(rep_digits(n as nat, radix as nat), radix, max) == Ok::<
            u128,
            Error,
        >(n),
{
    let s = rep_digits(n as nat, radix as nat);
    lemma_rep_digits(n as nat, radix);
    assert(is_digit(s[0], radix));
    assert(s[0] != CH_PLUS);
    assert(sign_offset_unsigned(s) == 0);
    assert(s.skip(0) =~= s);
    lemma_digit_run_len_is(s, radix, s.len() as int);
    assert(s.take(s.len() as int) =~= s);
}

/// Round trip for signed integers: parsing the canonical representation
/// of any in-range value, negative values written with a leading `'-'`,
/// yields that value back, at every radix.
pub proof fn lemma_round_trip_signed(n: i128, radix: u32, min: i128, max: i128)
    requires
        2 <= radix <= 36,
        min < 0 < max,
        min <= n <= max,
    ensures
        spec_standalone_signed(rep_signed(n as int, radix as nat), radix, min, max) == Ok::<
            i128,
            Error,
        >(n),
{
    if n >= 0 {
        let s = rep_digits(n as nat, radix as nat);
        lemma_rep_digits(n as nat, radix);
        assert(is_digit(s[0], radix));
        assert(s[0] != CH_PLUS && s[0] != CH_MINUS);
        assert(sign_offset_signed(s) == 0);
        assert(s.skip(0) =~= s);
        lemma_digit_run_len_is(s, radix, s.len() as int);
        assert(s.take(s.len() as int) =~= s);
    } else {
        let w = rep_digits((-n) as nat, radix as nat);
        let s = seq![CH_MINUS] + w;
        lemma_rep_digits((-n) as nat, radix);
        assert(s[0] == CH_MINUS);
        assert(sign_offset_signed(s) == 1);
        let d = s.skip(1);
        assert(d =~= w);
        lemma_digit_run_len_is(d, radix, d.len() as int);
        assert(d.take(d.len() as int) =~= d);
        assert(digits_val(d, radix) == -n);
    }
}

/// Overflow detection: when `radix^(k-1)` is in range but `radix^k` is
/// not, parsing a one followed by `k` zeros fails with `Overflow` at the
/// index of the last consumed digit, `k`.
pub open spec fn one_then_zeros(k: int) -> Seq<u8> {
    Seq::new(
        (k + 1) as nat,
        |i: int|
            if i == 0 {
                CH_1
            } else {
                CH_0
            },
    )
}

/// The value of the first `j + 1` bytes of `one_then_zeros` is `10^j`.
proof fn lemma_one_then_zeros_val(k: int, j: int)
    requires
        0 <= j <= k,
    ensures
        digits_val(one_then_zeros(k).take(j + 1), 10) == pow(10, j as nat),
    decreases j,
{
    reveal(pow);
    let s = one_then_zeros(k);
    if j == 0 {
        assert(s[0] == CH_1);
        assert(s.take(1).len() == 1);
        assert(s.take(1).drop_last() =~= Seq::<u8>::empty());
        assert(s.take(1).last() == s[0]);
        assert(digit_value(CH_1) == 1);
        assert(digits_val(s.take(1), 10) == digits_val(s.take(1).drop_last(), 10) * 10
            + digit_value(s.take(1).last()));
        assert(pow(10, 0nat) == 1);
    } else {
        lemma_one_then_zeros_val(k, j - 1);
        assert(s.take(j + 1).len() == j + 1);
        assert(s.take(j + 1).drop_last() =~= s.take(j));
        assert(s.take(j + 1).last() == s[j]);
        assert(digit_value(s[j]) == 0);
        assert(digits_val(s.take(j + 1), 10) == digits_val(s.take(j + 1).drop_last(), 10) * 10
            + digit_value(s.take(j + 1).last()));
        assert(pow(10, j as nat) == 10 * pow(10, (j - 1) as nat));
    }
}

/// Overflow detection for the decimal parser: with `10^(k-1) <= max <
/// 10^k`, the input `"1"` followed by `k` `"0"`s overflows, and the
/// reported index is `k`, the position of the last consumed digit.
pub proof fn lemma_overflow_detection(k: int, max: u128)
    requires
        k >= 1,
        pow(10, (k - 1) as nat) <= max,
        pow(10, k as nat) > max,
    ensures
        spec_standalone_unsigned(one_then_zeros(k), 10, max) == Err::<u128, Error>(
            Error { code: ErrorCode::Overflow, index: k as usize },
        ),
{
    let s = one_then_zeros(k);
    assert(forall|i: int| 0 <= i < s.len() ==> is_digit(#[trigger] s[i], 10));
    assert(s[0] == CH_1);
    assert(sign_offset_unsigned(s) == 0);
    assert(s.skip(0) =~= s);
    lemma_digit_run_len_is(s, 10, s.len() as int);
    assert forall|j: int| 0 <= j < k implies digits_val(s.take(#[trigger] (j + 1)), 10)
        <= max by {
        lemma_one_then_zeros_val(k, j);
        vstd::arithmetic::power::lemma_pow_increases(10, j as nat, (k - 1) as nat);
    }
    lemma_one_then_zeros_val(k, k);
    lemma_overflow_index_is(s, 10, max as int, 0, k);
    assert(s.take(s.len() as int) =~= s);
    lemma_one_then_zeros_val(k, k);
    assert(digits_val(s.take(digit_run_len(s, 10)), 10) == pow(10, k as nat));
}

/// Positional errors: appending one invalid byte to any input that
/// parses successfully fails with `InvalidDigit` exactly at the length
/// of the valid prefix.
pub proof fn lemma_positional_error(p: Seq<u8>, c: u8, radix: u32, max: u128)
    requires
        2 <= radix <= 36,
        spec_standalone_unsigned(p, radix, max) is Ok,
        !is_digit(c, radix),
    ensures
        spec_standalone_unsigned(p.push(c), radix, max) == Err::<u128, Error>(
            Error { code: ErrorCode::InvalidDigit, index: p.len() as usize },
        ),
{
    let so = sign_offset_unsigned(p);
    let d = p.skip(so);
    let k = digit_run_len(d, radix);
    lemma_digit_run_len_props(d, radix);
    assert(k == d.len());
    let s2 = p.push(c);
    assert(s2[0] == p[0]);
    assert(sign_offset_unsigned(s2) == so);
    let d2 = s2.skip(so);
    assert(d2 =~= d.push(c));
    assert forall|j: int| 0 <= j < d.len() implies is_digit(#[trigger] d2[j], radix) by {
        assert(d2[j] == d[j]);
    }
    lemma_digit_run_len_is(d2, radix, d.len() as int);
    assert(d2.take(d.len() as int) =~= d);
    assert(d.take(k) =~= d);
}

/// Leading-sign discipline: a `'+'` before a bare unsigned numeral
/// parses to the same value.
pub proof fn lemma_plus_unsigned(s: Seq<u8>, radix: u32, max: u128)
    requires
        2 <= radix <= 36,
        s.len() > 0,
        s[0] != CH_PLUS,
        spec_standalone_unsigned(s, radix, max) is Ok,
    ensures
        spec_standalone_unsigned(seq![CH_PLUS] + s, radix, max) == spec_standalone_unsigned(
            s,
            radix,
            max,
        ),
{
    let s2 = seq![CH_PLUS] + s;
    assert(s2[0] == CH_PLUS);
    assert(sign_offset_unsigned(s2) == 1);
    assert(s2.skip(1) =~= s);
    assert(sign_offset_unsigned(s) == 0);
    assert(s.skip(0) =~= s);
}

/// Leading-sign discipline: a `'-'` is not accepted by the unsigned
/// parser, which reports `InvalidDigit` at index 0.
pub proof fn lemma_minus_unsigned(s: Seq<u8>, radix: u32, max: u128)
    requires
        2 <= radix <= 36,
    ensures
        spec_standalone_unsigned(seq![CH_MINUS] + s, radix, max) == Err::<u128, Error>(
            Error { code: ErrorCode::InvalidDigit, index: 0 },
        ),
{
    let s2 = seq![CH_MINUS] + s;
    assert(s2[0] == CH_MINUS);
    assert(s2[0] != CH_PLUS);
    assert(sign_offset_unsigned(s2) == 0);
    assert(s2.skip(0) =~= s2);
    assert(!is_digit(s2[0], radix));
    lemma_digit_run_len_is(s2, radix, 0);
    assert(s2.take(0) =~= Seq::<u8>::empty());
}

/// Leading-sign discipline: a `'-'` before an in-range digit run parses
/// to the negated value in the signed parser.
pub proof fn lemma_minus_signed(s: Seq<u8>, radix: u32, min: i128, max: i128)
    requires
        2 <= radix <= 36,
        min < 0 < max,
        s.len() > 0,
        forall|i: int| 0 <= i < s.len() ==> is_digit(#[trigger] s[i], radix),
        digits_val(s, radix) <= -(min as int),
    ensures
        spec_standalone_signed(seq![CH_MINUS] + s, radix, min, max) == Ok::<i128, Error>(
            (-digits_val(s, radix)) as i128,
        ),
{
    let s2 = seq![CH_MINUS] + s;
    assert(s2[0] == CH_MINUS);
    assert(sign_offset_signed(s2) == 1);
    let d = s2.skip(1);
    assert(d =~= s);
    lemma_digit_run_len_is(d, radix, d.len() as int);
    assert(d.take(d.len() as int) =~= d);
    lemma_digits_val_nonneg(d, radix);
}

/// Leading-sign discipline: two signs in a row always fail with
/// `InvalidDigit` at index 1 in the signed parser.
pub proof fn lemma_double_sign_signed(a: u8, b: u8, s: Seq<u8>, radix: u32, min: i128, max: i128)
    requires
        2 <= radix <= 36,
        min < 0 < max,
        a == CH_PLUS || a == CH_MINUS,
        b == CH_PLUS || b == CH_MINUS,
    ensures
        spec_standalone_signed(seq![a, b] + s, radix, min, max) == Err::<i128, Error>(
            Error { code: ErrorCode::InvalidDigit, index: 1 },
        ),
{
    let s2 = seq![a, b] + s;
    assert(s2[0] == a);
    assert(sign_offset_signed(s2) == 1);
    let d = s2.skip(1);
    assert(d.len() == s.len() + 1);
    assert(d[0] == b);
    assert(!is_digit(b, radix));
    lemma_digit_run_len_is(d, radix, 0);
    assert(d.take(0) =~= Seq::<u8>::empty());
}

/// Leading-sign discipline: in the unsigned parser a consumed `'+'`
/// followed by another sign fails with `InvalidDigit` at index 1.
pub proof fn lemma_double_sign_unsigned(b: u8, s: Seq<u8>, radix: u32, max: u128)
    requires
        2 <= radix <= 36,
        b == CH_PLUS || b == CH_MINUS,
    ensures
        spec_standalone_unsigned(seq![CH_PLUS, b] + s, radix, max) == Err::<u128, Error>(
            Error { code: ErrorCode::InvalidDigit, index: 1 },
        ),
{
    let s2 = seq![CH_PLUS, b] + s;
    assert(s2[0] == CH_PLUS);
    assert(sign_offset_unsigned(s2) == 1);
    let d = s2.skip(1);
    assert(d.len() == s.len() + 1);
    assert(d[0] == b);
    assert(!is_digit(b, radix));
    lemma_digit_run_len_is(d, radix, 0);
    assert(d.take(0) =~= Seq::<u8>::empty());
}

/// A digit run extends through an all-digit prefix.
proof fn lemma_digit_run_len_concat(a: Seq<u8>, b: Seq<u8>, radix: u32)
    requires
        forall|i: int| 0 <= i < a.len() ==> is_digit(#[trigger] a[i], radix),
    ensures
        digit_run_len(a + b, radix) == a.len() + digit_run_len(b, radix),
{
    let t = a + b;
    lemma_digit_run_len_props(b, radix);
    let rb = digit_run_len(b, radix);
    assert forall|j: int| 0 <= j < a.len() + rb implies is_digit(#[trigger] t[j], radix) by {
        if j < a.len() {
            assert(t[j] == a[j]);
        } else {
            assert(t[j] == b[j - a.len()]);
        }
    }
    if a.len() + rb < t.len() {
        assert(t[a.len() + rb] == b[rb]);
    }
    lemma_digit_run_len_is(t, radix, a.len() + rb);
}

/// Prepending zeros does not change the left-trim.
proof fn lemma_ltrim_prepend(z: Seq<u8>, w: Seq<u8>)
    requires
        forall|i: int| 0 <= i < z.len() ==> z[i] == CH_0,
    ensures
        ltrim_zero(z + w) == ltrim_zero(w),
    decreases z.len(),
{
    if z.len() == 0 {
        assert(z + w =~= w);
    } else {
        assert((z + w)[0] == z[0]);
        assert((z + w).skip(1) =~= z.skip(1) + w);
        assert forall|i: int| 0 <= i < z.skip(1).len() implies z.skip(1)[i] == CH_0 by {
            assert(z.skip(1)[i] == z[i + 1]);
        }
        lemma_ltrim_prepend(z.skip(1), w);
    }
}

/// Appending zeros does not change the right-trim.
proof fn lemma_rtrim_append(w: Seq<u8>, z: Seq<u8>)
    requires
        forall|i: int| 0 <= i < z.len() ==> z[i] == CH_0,
    ensures
        rtrim_zero(w + z) == rtrim_zero(w),
    decreases z.len(),
{
    if z.len() == 0 {
        assert(w + z =~= w);
    } else {
        assert((w + z).last() == z.last());
        assert(z.last() == z[z.len() - 1]);
        assert((w + z).drop_last() =~= w + z.drop_last());
        lemma_rtrim_append(w, z.drop_last());
    }
}

/// The exponent clause reads only the bytes after the mantissa: two
/// inputs that agree there have the same successful clause, with the end
/// position shifted along.
proof fn lemma_exponent_clause_suffix(radix: u32, s: Seq<u8>, t: Seq<u8>, off: int)
    requires
        0 <= spec_after_mantissa(radix, s) <= s.len(),
        0 <= spec_after_mantissa(radix, t) <= t.len(),
        s.skip(spec_after_mantissa(radix, s)) == t.skip(spec_after_mantissa(radix, t)),
    ensures
        ({
            let ps = spec_after_mantissa(radix, s);
            let pt = spec_after_mantissa(radix, t);
            spec_exponent_clause(radix, s, off) matches Ok(se) ==> spec_exponent_clause(
                radix,
                t,
                off,
            ) == Ok::<(Seq<u8>, int), Error>((se.0, pt + (se.1 - ps)))
        }),
{
    let ps = spec_after_mantissa(radix, s);
    let pt = spec_after_mantissa(radix, t);
    let u = s.skip(ps);
    assert(s.len() - ps == u.len() && t.len() - pt == u.len());
    if u.len() == 0 {
        assert(ps >= s.len() && pt >= t.len());
    } else {
        assert(s[ps] == u[0] && t[pt] == u[0]);
        if to_lower(u[0]) == to_lower(spec_exponent_notation_char(radix)) && u.len() >= 2 {
            assert(s[ps + 1] == u[1] && t[pt + 1] == u[1]);
            let sb: int = if u[1] == CH_PLUS || u[1] == CH_MINUS {
                1
            } else {
                0
            };
            if u.len() > 1 + sb {
                assert(s.skip(ps + 1 + sb) =~= u.skip(1 + sb));
                assert(t.skip(pt + 1 + sb) =~= u.skip(1 + sb));
                let ec = digit_run_len(u.skip(1 + sb), radix);
                lemma_digit_run_len_props(u.skip(1 + sb), radix);
                assert forall|j: int| 0 <= j < sb + ec implies #[trigger] s.subrange(
                    ps + 1,
                    ps + 1 + sb + ec,
                )[j] == t.subrange(pt + 1, pt + 1 + sb + ec)[j] by {
                    assert(u[1 + j] == s[ps + 1 + j]);
                    assert(u[1 + j] == t[pt + 1 + j]);
                }
                assert(s.subrange(ps + 1, ps + 1 + sb + ec) =~= t.subrange(
                    pt + 1,
                    pt + 1 + sb + ec,
                ));
            }
        }
    }
}

/// Zero trimming is pure: prepending any number of `'0'`s to a literal
/// that parses successfully leaves the extracted state unchanged.  The
/// parsed value is a function of the state and the radix, so the value
/// is unchanged too.
pub proof fn lemma_prepend_zeros(radix: u32, z: Seq<u8>, s: Seq<u8>, off: int)
    requires
        2 <= radix <= 36,
        s.len() > 0,
        forall|i: int| 0 <= i < z.len() ==> z[i] == CH_0,
        spec_parse(radix, s, off) is Ok,
    ensures
        spec_parse(radix, z + s, off) == spec_parse(radix, s, off),
{
    let t = z + s;
    if z.len() == 0 {
        assert(t =~= s);
    } else {
        let zl = z.len() as int;
        assert(t[0] == z[0]);
        assert(is_digit(CH_0, radix));
        assert forall|i: int| 0 <= i < zl implies is_digit(#[trigger] z[i], radix) by {
            assert(z[i] == CH_0);
        }
        lemma_digit_run_len_concat(z, s, radix);
        let ie_s = digit_run_len(s, radix);
        let ie_t = zl + ie_s;
        lemma_digit_run_len_props(s, radix);
        assert(ie_t == spec_integer_end(radix, t));
        if ie_s < s.len() {
            assert(t[ie_t] == s[ie_s]);
        }
        assert(spec_has_dot(radix, t) == spec_has_dot(radix, s));
        if spec_has_dot(radix, s) {
            assert(t.skip(ie_t + 1) =~= s.skip(ie_s + 1));
            assert(spec_frac_len(radix, t) == spec_frac_len(radix, s));
            lemma_digit_run_len_props(s.skip(ie_s + 1), radix);
        }
        let am_s = spec_after_mantissa(radix, s);
        let am_t = spec_after_mantissa(radix, t);
        assert(am_t == zl + am_s);
        assert(am_s <= s.len());
        assert(t.skip(am_t) =~= s.skip(am_s));
        lemma_exponent_clause_suffix(radix, s, t, off);
        // success of `s` rules out every error branch of `t`
        assert(spec_exponent_clause(radix, s, off) is Ok);
        let se = spec_exponent_clause(radix, s, off)->Ok_0;
        assert(se.1 >= s.len());
        assert(spec_exponent_clause(radix, t, off) == Ok::<(Seq<u8>, int), Error>(
            (se.0, am_t + (se.1 - am_s)),
        ));
        assert(am_t + (se.1 - am_s) >= t.len());
        // the extracted parts agree
        assert(t.take(ie_t) =~= z + s.take(ie_s));
        lemma_ltrim_prepend(z, s.take(ie_s));
        assert(ltrim_zero(spec_integer_part(radix, t)) == ltrim_zero(
            spec_integer_part(radix, s),
        ));
        if spec_has_dot(radix, s) {
            assert(t.subrange(ie_t + 1, ie_t + 1 + spec_frac_len(radix, t)) =~= s.subrange(
                ie_s + 1,
                ie_s + 1 + spec_frac_len(radix, s),
            ));
        }
        assert(spec_fraction_part(radix, t) == spec_fraction_part(radix, s));
    }
}

/// Zero trimming is pure: appending any number of `'0'`s to the fraction
/// digits of a literal that parses successfully (and has a decimal
/// point) leaves the extracted state unchanged, and with it the parsed
/// value.
pub proof fn lemma_append_fraction_zeros(radix: u32, s: Seq<u8>, z: Seq<u8>, off: int)
    requires
        2 <= radix <= 36,
        s.len() > 0,
        forall|i: int| 0 <= i < z.len() ==> z[i] == CH_0,
        spec_has_dot(radix, s),
        spec_parse(radix, s, off) is Ok,
    ensures
        spec_parse(
            radix,
            s.take(spec_after_mantissa(radix, s)) + z + s.skip(spec_after_mantissa(radix, s)),
            off,
        ) == spec_parse(radix, s, off),
{
    let am = spec_after_mantissa(radix, s);
    let t = s.take(am) + z + s.skip(am);
    let zl = z.len() as int;
    let ie = digit_run_len(s, radix);
    let flen = spec_frac_len(radix, s);
    lemma_digit_run_len_props(s, radix);
    lemma_digit_run_len_props(s.skip(ie + 1), radix);
    assert(am == ie + 1 + flen);
    assert(am <= s.len());
    if zl == 0 {
        assert(t =~= s);
    } else {
        assert(t.len() == s.len() + zl);
        assert forall|j: int| 0 <= j < am implies t[j] == s[j] by {
            assert(t[j] == s.take(am)[j]);
        }
        assert(t[0] == s[0]);
        // the integer run and the dot are unchanged
        assert forall|j: int| 0 <= j < ie implies is_digit(#[trigger] t[j], radix) by {
            assert(t[j] == s[j]);
        }
        assert(t[ie] == s[ie] && s[ie] == CH_DOT);
        assert(!is_digit(CH_DOT, radix));
        lemma_digit_run_len_is(t, radix, ie);
        assert(spec_has_dot(radix, t));
        // the fraction run gains exactly the appended zeros
        let ft = t.skip(ie + 1);
        assert forall|j: int| 0 <= j < flen + zl implies is_digit(#[trigger] ft[j], radix) by {
            assert(ft[j] == t[ie + 1 + j]);
            if j < flen {
                assert(t[ie + 1 + j] == s[ie + 1 + j]);
                assert(s[ie + 1 + j] == s.skip(ie + 1)[j]);
            } else {
                assert(t[ie + 1 + j] == z[j - flen]);
            }
        }
        if flen + zl < ft.len() {
            assert(ft[flen + zl] == t[am + zl]);
            assert(t[am + zl] == s.skip(am)[0]);
            assert(s.skip(am)[0] == s[am]);
            assert(s[am] == s.skip(ie + 1)[flen]);
        }
        lemma_digit_run_len_is(ft, radix, flen + zl);
        assert(spec_frac_len(radix, t) == flen + zl);
        let am_t = spec_after_mantissa(radix, t);
        assert(am_t == am + zl);
        assert(t.skip(am_t) =~= s.skip(am));
        lemma_exponent_clause_suffix(radix, s, t, off);
        assert(spec_exponent_clause(radix, s, off) is Ok);
        let se = spec_exponent_clause(radix, s, off)->Ok_0;
        assert(se.1 >= s.len());
        assert(spec_exponent_clause(radix, t, off) == Ok::<(Seq<u8>, int), Error>(
            (se.0, am_t + (se.1 - am)),
        ));
        assert(am_t + (se.1 - am) >= t.len());
        // the extracted parts agree
        assert(t.take(ie) =~= s.take(ie));
        assert(spec_integer_part(radix, t) == spec_integer_part(radix, s));
        let fs = s.subrange(ie + 1, ie + 1 + flen);
        assert(t.subrange(ie + 1, ie + 1 + flen + zl) =~= fs + z);
        lemma_rtrim_append(fs, z);
        assert(rtrim_zero(spec_fraction_part(radix, t)) == rtrim_zero(
            spec_fraction_part(radix, s),
        ));
    }
}

} // verus!
