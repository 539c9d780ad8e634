//! The float-string analyzer: partitions a numeric literal into its
//! integer, fraction and exponent substrings under a strict grammar,
//! rejecting malformed input with positional errors.
//!
//! Grammar (with digits of the chosen radix and its exponent marker):
//!
//! ```text
//! literal  ::= ( integer [ '.' [fraction] ] | '.' fraction ) [ exponent ]
//! integer  ::= digit+
//! fraction ::= digit+
//! exponent ::= marker [ '+' | '-' ] digit+
//! ```

use vstd::prelude::*;

use crate::atoi::{sign_offset_signed, standalone_signed};
use crate::digit::{
    case_insensitive_equal, digit_run_len, digits_val, exponent_notation_char, is_digit,
    lemma_digit_run_len_is, lemma_digit_run_len_props, lemma_digits_val_nonneg,
    spec_exponent_notation_char, to_digit,
    to_lower, CH_0, CH_DOT, CH_MINUS, CH_PLUS,
};
use crate::error::{Error, ErrorCode};
use crate::exponent::{mantissa_exponent, saturate_i32, scientific_exponent};

verus! {

/// The integer substring left-trimmed of leading `'0'`s.
pub open spec fn ltrim_zero(s: Seq<u8>) -> Seq<u8>
    decreases s.len(),
{
    if s.len() > 0 && s[0] == CH_0 {
        ltrim_zero(s.skip(1))
    } else {
        s
    }
}

/// The fraction substring right-trimmed of trailing `'0'`s.
pub open spec fn rtrim_zero(s: Seq<u8>) -> Seq<u8>
    decreases s.len(),
{
    if s.len() > 0 && s.last() == CH_0 {
        rtrim_zero(s.drop_last())
    } else {
        s
    }
}

/// When the first `z` bytes are `'0'` and the next one is not, the
/// left-trim drops exactly those `z` bytes.
pub proof fn lemma_ltrim_zero_is(s: Seq<u8>, z: int)
    requires
        0 <= z <= s.len(),
        forall|j: int| 0 <= j < z ==> s[j] == CH_0,
        z < s.len() ==> s[z] != CH_0,
    ensures
        ltrim_zero(s) == s.skip(z),
    decreases z,
{
    if z == 0 {
        assert(s.skip(0) =~= s);
    } else {
        assert(s[0] == CH_0);
        assert forall|j: int| 0 <= j < z - 1 implies s.skip(1)[j] == CH_0 by {
            assert(s.skip(1)[j] == s[j + 1]);
        }
        if z - 1 < s.skip(1).len() {
            assert(s.skip(1)[z - 1] == s[z]);
        }
        lemma_ltrim_zero_is(s.skip(1), z - 1);
        assert(s.skip(1).skip(z - 1) =~= s.skip(z));
    }
}

/// When every byte from `z` on is `'0'` and the one before `z` is not,
/// the right-trim keeps exactly the first `z` bytes.
pub proof fn lemma_rtrim_zero_is(s: Seq<u8>, z: int)
    requires
        0 <= z <= s.len(),
        forall|j: int| z <= j < s.len() ==> s[j] == CH_0,
        z > 0 ==> s[z - 1] != CH_0,
    ensures
        rtrim_zero(s) == s.take(z),
    decreases s.len(),
{
    if s.len() == 0 {
        assert(s.take(0) =~= s);
    } else if z == s.len() {
        assert(s.last() == s[z - 1]);
        assert(s.take(z) =~= s);
    } else {
        assert(s.last() == CH_0);
        assert(forall|j: int| z <= j < s.drop_last().len() ==> s.drop_last()[j] == CH_0);
        if z > 0 {
            assert(s.drop_last()[z - 1] == s[z - 1]);
        }
        lemma_rtrim_zero_is(s.drop_last(), z);
        assert(s.drop_last().take(z) =~= s.take(z));
    }
}

/// Length of the leading digit run: the end of the integer substring.
/// Zero when the literal leads with the decimal point.
pub open spec fn spec_integer_end(radix: u32, s: Seq<u8>) -> int {
    digit_run_len(s, radix)
}

/// Whether a decimal point follows the integer substring.
pub open spec fn spec_has_dot(radix: u32, s: Seq<u8>) -> bool {
    spec_integer_end(radix, s) < s.len() && s[spec_integer_end(radix, s)] == CH_DOT
}

/// Length of the fraction digit run after the decimal point.
pub open spec fn spec_frac_len(radix: u32, s: Seq<u8>) -> int {
    digit_run_len(s.skip(spec_integer_end(radix, s) + 1), radix)
}

/// Index of the first byte after the mantissa (integer substring, then an
/// optional point and fraction substring).
pub open spec fn spec_after_mantissa(radix: u32, s: Seq<u8>) -> int {
    if spec_has_dot(radix, s) {
        spec_integer_end(radix, s) + 1 + spec_frac_len(radix, s)
    } else {
        spec_integer_end(radix, s)
    }
}

/// The integer substring, before trimming.
pub open spec fn spec_integer_part(radix: u32, s: Seq<u8>) -> Seq<u8> {
    s.take(spec_integer_end(radix, s))
}

/// The fraction substring, before trimming.
pub open spec fn spec_fraction_part(radix: u32, s: Seq<u8>) -> Seq<u8> {
    if spec_has_dot(radix, s) {
        s.subrange(
            spec_integer_end(radix, s) + 1,
            spec_integer_end(radix, s) + 1 + spec_frac_len(radix, s),
        )
    } else {
        Seq::empty()
    }
}

/// The exponent clause starting where the mantissa ends: `Ok` carries the
/// exponent substring (sign kept, marker dropped) and the index of the
/// first unconsumed byte; an exponent marker with no digits after it (or
/// only a sign) is an [`ErrorCode::EmptyExponent`] at the index where the
/// digits were expected.
pub open spec fn spec_exponent_clause(radix: u32, s: Seq<u8>, off: int) -> Result<
    (Seq<u8>, int),
    Error,
> {
    let p = spec_after_mantissa(radix, s);
    if p >= s.len() || to_lower(s[p]) != to_lower(spec_exponent_notation_char(radix)) {
        Ok((Seq::empty(), p))
    } else {
        let q = p + 1;
        if q >= s.len() {
            Err(Error { code: ErrorCode::EmptyExponent, index: (off + q) as usize })
        } else {
            let sb: int = if s[q] == CH_PLUS || s[q] == CH_MINUS {
                1
            } else {
                0
            };
            let rq = q + sb;
            if rq >= s.len() {
                Err(Error { code: ErrorCode::EmptyExponent, index: (off + rq) as usize })
            } else {
                let ec = digit_run_len(s.skip(rq), radix);
                Ok((s.subrange(q, rq + ec), rq + ec))
            }
        }
    }
}

/// What extracting a float literal returns: the left-trimmed integer
/// substring, the right-trimmed fraction substring and the exponent
/// substring on success, and otherwise the first positional error —
/// an invalid leading byte, a lone decimal point, an empty exponent, or
/// the first unconsumed byte.  Meaningful for non-empty `s`.
pub open spec fn spec_parse(radix: u32, s: Seq<u8>, off: int) -> Result<
    (Seq<u8>, Seq<u8>, Seq<u8>),
    Error,
> {
    if !(is_digit(s[0], radix) || s[0] == CH_DOT) {
        Err(Error { code: ErrorCode::InvalidDigit, index: off as usize })
    } else if s[0] == CH_DOT && spec_frac_len(radix, s) == 0 {
        Err(Error { code: ErrorCode::EmptyFraction, index: (off + 1) as usize })
    } else {
        match spec_exponent_clause(radix, s, off) {
            Err(e) => Err(e),
            Ok((es, end)) => if end < s.len() {
                Err(Error { code: ErrorCode::InvalidDigit, index: (off + end) as usize })
            } else {
                Ok(
                    (
                        ltrim_zero(spec_integer_part(radix, s)),
                        rtrim_zero(spec_fraction_part(radix, s)),
                        es,
                    ),
                )
            },
        }
    }
}

/// A successful parse always yields a well-formed exponent substring, so
/// its result can be handed straight to [`RawFloatState::raw_exponent`].
pub proof fn lemma_parse_exponent_wf(radix: u32, s: Seq<u8>, off: int)
    requires
        2 <= radix <= 36,
        s.len() > 0,
        spec_parse(radix, s, off) is Ok,
    ensures
        exponent_wf(spec_parse(radix, s, off)->Ok_0.2, radix),
{
    let p = spec_after_mantissa(radix, s);
    let es = spec_parse(radix, s, off)->Ok_0.2;
    assert(spec_exponent_clause(radix, s, off) is Ok);
    if p >= s.len() || to_lower(s[p]) != to_lower(spec_exponent_notation_char(radix)) {
        assert(spec_exponent_clause(radix, s, off) == Ok::<(Seq<u8>, int), Error>(
            (Seq::<u8>::empty(), p),
        ));
        assert(es.len() == 0);
    } else {
        lemma_digit_run_len_props(s, radix);
        if spec_has_dot(radix, s) {
            lemma_digit_run_len_props(s.skip(spec_integer_end(radix, s) + 1), radix);
        }
        assert(p >= 0);
        let q = p + 1;
        assert(q < s.len());
        let sb: int = if s[q] == CH_PLUS || s[q] == CH_MINUS {
            1
        } else {
            0
        };
        let rq = q + sb;
        assert(rq < s.len());
        let run = s.skip(rq);
        let ec = digit_run_len(run, radix);
        lemma_digit_run_len_props(run, radix);
        let w = s.subrange(q, rq + ec);
        assert(spec_exponent_clause(radix, s, off) == Ok::<(Seq<u8>, int), Error>(
            (w, rq + ec),
        ));
        assert(es == w);
        assert(ec >= 1) by {
            if ec == 0 {
                assert(rq + ec < s.len());
                assert(spec_parse(radix, s, off) is Err);
            }
        }
        assert(w.len() == sb + ec);
        assert forall|i: int| sb <= i < w.len() implies is_digit(#[trigger] w[i], radix) by {
            assert(w[i] == s[q + i]);
            assert(run[i - sb] == s[rq + (i - sb)]);
            assert(is_digit(run[i - sb], radix));
        }
        if sb == 1 {
            assert(w[0] == s[q]);
            assert(sign_offset_signed(w) == 1);
        } else {
            assert(w[0] == s[q]);
            assert(run[0] == s[rq]);
            assert(is_digit(w[0], radix));
            assert(w[0] != CH_PLUS && w[0] != CH_MINUS);
            assert(sign_offset_signed(w) == 0);
        }
        assert(exponent_wf(w, radix));
    }
}

/// Length of the digit run of `bytes` starting at `from`: the index of the
/// first non-digit byte at or after `from`.
pub fn digit_run_from(radix: u32, bytes: &[u8], from: usize) -> (r: usize)
    requires
        2 <= radix <= 36,
        from <= bytes@.len(),
    ensures
        from <= r <= bytes@.len(),
        r - from == digit_run_len(bytes@.skip(from as int), radix),
{
    let ghost d = bytes@.skip(from as int);
    let mut i: usize = from;
    while i < bytes.len()
        invariant
            2 <= radix <= 36,
            from <= i <= bytes@.len(),
            d == bytes@.skip(from as int),
            forall|j: int| 0 <= j < i - from ==> is_digit(#[trigger] d[j], radix),
        decreases bytes@.len() - i,
    {
        proof {
            assert(d[i - from] == bytes@[i as int]);
        }
        match to_digit(bytes[i], radix) {
            Some(_) => {
                i = i + 1;
            },
            None => {
                proof {
                    lemma_digit_run_len_is(d, radix, i - from);
                }
                return i;
            },
        }
    }
    proof {
        lemma_digit_run_len_is(d, radix, d.len() as int);
    }
    i
}

/// Count the digits of `radix` at the front of `bytes`.
pub fn consume_digits(radix: u32, bytes: &[u8]) -> (r: usize)
    requires
        2 <= radix <= 36,
    ensures
        r == digit_run_len(bytes@, radix),
{
    let r = digit_run_from(radix, bytes, 0);
    proof {
        assert(bytes@.skip(0) =~= bytes@);
    }
    r
}

/// Copy the byte range `[a, b)` of a slice into a fresh vector.
fn subvec(bytes: &[u8], a: usize, b: usize) -> (r: Vec<u8>)
    requires
        a <= b <= bytes@.len(),
    ensures
        r@ == bytes@.subrange(a as int, b as int),
{
    let mut v: Vec<u8> = Vec::new();
    proof {
        assert(v@ =~= bytes@.subrange(a as int, a as int));
    }
    let mut i: usize = a;
    while i < b
        invariant
            a <= i <= b <= bytes@.len(),
            v@ == bytes@.subrange(a as int, i as int),
        decreases b - i,
    {
        v.push(bytes[i]);
        proof {
            assert(bytes@.subrange(a as int, i + 1) =~= bytes@.subrange(a as int, i as int).push(
                bytes@[i as int],
            ));
        }
        i = i + 1;
    }
    v
}

/// Raw substrings from parsing a float literal: the integer component
/// (left-trimmed of `'0'`s), the fraction component (right-trimmed of
/// `'0'`s) and the exponent component with its sign byte kept.
#[derive(Debug)]
pub struct RawFloatState {
    pub integer: Vec<u8>,
    pub fraction: Vec<u8>,
    pub exponent: Vec<u8>,
}

/// A well-formed exponent substring: empty, or an optional sign followed
/// by at least one digit of the radix.
pub open spec fn exponent_wf(e: Seq<u8>, radix: u32) -> bool {
    e.len() == 0 || {
        let sb = sign_offset_signed(e);
        e.len() > sb && forall|i: int| sb <= i < e.len() ==> is_digit(#[trigger] e[i], radix)
    }
}

/// The exponent value: the signed value of the exponent substring,
/// saturated to the `i32` range, and `0` when there is no exponent.
pub open spec fn spec_raw_exponent(e: Seq<u8>, radix: u32) -> int {
    if e.len() == 0 {
        0
    } else {
        let v = digits_val(e.skip(sign_offset_signed(e)), radix);
        let sv: int = if e[0] == CH_MINUS {
            -v
        } else {
            v
        };
        saturate_i32(sv)
    }
}

impl RawFloatState {
    /// Create an empty raw float state.
    pub fn new() -> (r: RawFloatState)
        ensures
            r.integer@ == Seq::<u8>::empty(),
            r.fraction@ == Seq::<u8>::empty(),
            r.exponent@ == Seq::<u8>::empty(),
    {
        RawFloatState { integer: Vec::new(), fraction: Vec::new(), exponent: Vec::new() }
    }

    /// Parse the float state from the raw bytes of a literal, reporting
    /// the radix's grammar errors with indices offset by `offset`.
    #[verifier::rlimit(100)]
    #[verifier::spinoff_prover]
    pub fn parse(radix: u32, bytes: &[u8], offset: usize) -> (r: Result<RawFloatState, Error>)
        requires
            2 <= radix <= 36,
            bytes@.len() > 0,
            offset + bytes@.len() <= usize::MAX,
        ensures
            ({
                let sp = spec_parse(radix, bytes@, offset as int);
                match r {
                    Ok(st) => sp matches Ok(parts) && st.integer@ == parts.0 && st.fraction@
                        == parts.1 && st.exponent@ == parts.2,
                    Err(e) => sp == Err::<(Seq<u8>, Seq<u8>, Seq<u8>), Error>(e),
                }
            }),
    {
        let ghost s = bytes@;
        let n = bytes.len();
        let c0 = bytes[0];
        let leading_digit = match to_digit(c0, radix) {
            Some(_) => true,
            None => false,
        };
        if !(leading_digit || c0 == CH_DOT) {
            return Err(Error { code: ErrorCode::InvalidDigit, index: offset });
        }
        let ie = digit_run_from(radix, bytes, 0);
        proof {
            assert(s.skip(0) =~= s);
            assert(ie == spec_integer_end(radix, s));
        }
        let has_dot = ie < n && bytes[ie] == CH_DOT;
        let (fstart, flen): (usize, usize) = if has_dot {
            let fe = digit_run_from(radix, bytes, ie + 1);
            (ie + 1, fe - (ie + 1))
        } else {
            (ie, 0)
        };
        if c0 == CH_DOT && flen == 0 {
            return Err(Error { code: ErrorCode::EmptyFraction, index: offset + 1 });
        }
        let after_m: usize = if has_dot {
            fstart + flen
        } else {
            ie
        };
        proof {
            assert(after_m == spec_after_mantissa(radix, s));
        }
        let (est, eend): (usize, usize) = if after_m < n && case_insensitive_equal(
            bytes[after_m],
            exponent_notation_char(radix),
        ) {
            let q = after_m + 1;
            if q == n {
                return Err(Error { code: ErrorCode::EmptyExponent, index: offset + q });
            }
            let sb: usize = if bytes[q] == CH_PLUS || bytes[q] == CH_MINUS {
                1
            } else {
                0
            };
            let rq = q + sb;
            if rq == n {
                return Err(Error { code: ErrorCode::EmptyExponent, index: offset + rq });
            }
            let ee = digit_run_from(radix, bytes, rq);
            (q, ee)
        } else {
            (after_m, after_m)
        };
        if eend < n {
            return Err(Error { code: ErrorCode::InvalidDigit, index: offset + eend });
        }
        // trim leading zeros from the integer substring
        let mut zs: usize = 0;
        while zs < ie && bytes[zs] == CH_0
            invariant
                0 <= zs <= ie <= bytes@.len(),
                forall|j: int| 0 <= j < zs ==> bytes@[j] == CH_0,
            decreases ie - zs,
        {
            zs = zs + 1;
        }
        // trim trailing zeros from the fraction substring
        let mut fz: usize = fstart + flen;
        while fz > fstart && bytes[fz - 1] == CH_0
            invariant
                fstart <= fz <= fstart + flen <= bytes@.len(),
                forall|j: int| fz <= j < fstart + flen ==> bytes@[j] == CH_0,
            decreases fz,
        {
            fz = fz - 1;
        }
        let integer = subvec(bytes, zs, ie);
        let fraction = subvec(bytes, fstart, fz);
        let exponent = subvec(bytes, est, eend);
        proof {
            let ip = spec_integer_part(radix, s);
            assert forall|j: int| 0 <= j < zs implies ip[j] == CH_0 by {
                assert(ip[j] == s[j]);
            }
            if (zs as int) < ie {
                assert(ip[zs as int] == s[zs as int]);
            }
            lemma_ltrim_zero_is(ip, zs as int);
            assert(ip.skip(zs as int) =~= s.subrange(zs as int, ie as int));
            let fp = spec_fraction_part(radix, s);
            if has_dot {
                assert forall|j: int| fz - fstart <= j < fp.len() implies fp[j] == CH_0 by {
                    assert(fp[j] == s[fstart + j]);
                }
                if fz > fstart {
                    assert(fp[fz - fstart - 1] == s[fz - 1]);
                }
                lemma_rtrim_zero_is(fp, fz - fstart);
                assert(fp.take(fz - fstart) =~= s.subrange(fstart as int, fz as int));
            } else {
                assert(fz == fstart);
                assert(fraction@ =~= Seq::<u8>::empty());
            }
            if !(after_m < n && to_lower(s[after_m as int]) == to_lower(
                spec_exponent_notation_char(radix),
            )) {
                assert(exponent@ =~= Seq::<u8>::empty());
            }
        }
        Ok(RawFloatState { integer, fraction, exponent })
    }

    /// The exponent substring parsed as a signed decimal-in-radix value,
    /// saturating to `i32::MAX` / `i32::MIN` on overflow and underflow.
    pub fn raw_exponent(&self, radix: u32) -> (r: i32)
        requires
            2 <= radix <= 36,
            exponent_wf(self.exponent@, radix),
        ensures
            r == spec_raw_exponent(self.exponent@, radix),
    {
        if self.exponent.len() == 0 {
            return 0;
        }
        let ghost e = self.exponent@;
        let ghost so = sign_offset_signed(e);
        let ghost d = e.skip(so);
        proof {
            assert forall|j: int| 0 <= j < d.len() implies is_digit(#[trigger] d[j], radix) by {
                assert(d[j] == e[j + so]);
            }
            lemma_digit_run_len_is(d, radix, d.len() as int);
            lemma_digits_val_nonneg(d, radix);
            assert(d.take(d.len() as int) =~= d);
        }
        match standalone_signed(radix, self.exponent.as_slice(), i32::MIN as i128, i32::MAX
            as i128) {
            Ok(v) => v as i32,
            Err(err) => match err.code {
                ErrorCode::Overflow => i32::MAX,
                ErrorCode::Underflow => i32::MIN,
                _ => {
                    proof {
                        assert(false);
                    }
                    0
                },
            },
        }
    }

    /// Process the raw state for the accurate float path, recording the
    /// truncation count and the already-parsed raw exponent, and locating
    /// the first significant digit when the integer substring is empty.
    pub fn process(self, truncated: usize, raw_exponent: i32) -> (r: FloatState)
        ensures
            r.integer@ == self.integer@,
            r.fraction@ == self.fraction@,
            r.digits_start == spec_digits_start(self.integer@, self.fraction@),
            r.truncated == truncated,
            r.raw_exponent == raw_exponent,
    {
        let digits_start: usize = if self.integer.len() == 0 {
            let mut z: usize = 0;
            while z < self.fraction.len() && *self.fraction.get(z).unwrap() == CH_0
                invariant
                    0 <= z <= self.fraction@.len(),
                    forall|j: int| 0 <= j < z ==> self.fraction@[j] == CH_0,
                decreases self.fraction@.len() - z,
            {
                z = z + 1;
            }
            proof {
                lemma_ltrim_zero_is(self.fraction@, z as int);
            }
            z
        } else {
            0
        };
        FloatState {
            integer: self.integer,
            fraction: self.fraction,
            digits_start,
            truncated,
            raw_exponent,
        }
    }
}

/// Where the significant digits begin: the count of leading `'0'`s of the
/// fraction when the integer substring is empty, and `0` otherwise.
pub open spec fn spec_digits_start(integer: Seq<u8>, fraction: Seq<u8>) -> int {
    if integer.len() == 0 {
        fraction.len() - ltrim_zero(fraction).len()
    } else {
        0
    }
}

/// Substrings and information for the accurate float path.
#[derive(Debug)]
pub struct FloatState {
    /// Substring for the integer component of the mantissa.
    pub integer: Vec<u8>,
    /// Substring for the fraction component of the mantissa.
    pub fraction: Vec<u8>,
    /// Offset to where the significant digits start in the fraction.
    pub digits_start: usize,
    /// Number of truncated digits from the mantissa.
    pub truncated: usize,
    /// Raw exponent for the float.
    pub raw_exponent: i32,
}

impl FloatState {
    /// The fields fit together: the significant digits start inside the
    /// fraction substring.
    pub open spec fn wf(&self) -> bool {
        self.digits_start <= self.fraction@.len()
    }

    /// Length of the integer substring.
    pub fn integer_len(&self) -> (r: usize)
        ensures
            r == self.integer@.len(),
    {
        self.integer.len()
    }

    /// Number of parsed integer digits.
    pub fn integer_digits(&self) -> (r: usize)
        ensures
            r == self.integer@.len(),
    {
        self.integer_len()
    }

    /// The integer digits.
    pub fn integer_iter(&self) -> (r: Vec<u8>)
        ensures
            r@ == self.integer@,
    {
        let r = subvec(self.integer.as_slice(), 0, self.integer.len());
        proof {
            assert(self.integer@.subrange(0, self.integer@.len() as int) =~= self.integer@);
        }
        r
    }

    /// Length of the fraction substring.
    pub fn fraction_len(&self) -> (r: usize)
        ensures
            r == self.fraction@.len(),
    {
        self.fraction.len()
    }

    /// Number of significant fraction digits.
    pub fn fraction_digits(&self) -> (r: usize)
        requires
            self.wf(),
        ensures
            r == self.fraction@.len() - self.digits_start,
    {
        self.fraction_len() - self.digits_start
    }

    /// The significant fraction digits.
    pub fn fraction_iter(&self) -> (r: Vec<u8>)
        requires
            self.wf(),
        ensures
            r@ == self.fraction@.skip(self.digits_start as int),
    {
        let r = subvec(self.fraction.as_slice(), self.digits_start, self.fraction.len());
        proof {
            assert(self.fraction@.subrange(self.digits_start as int, self.fraction@.len() as int)
                =~= self.fraction@.skip(self.digits_start as int));
        }
        r
    }

    /// Number of significant mantissa digits.
    pub fn mantissa_digits(&self) -> (r: usize)
        requires
            self.wf(),
            self.integer@.len() + self.fraction@.len() <= usize::MAX,
        ensures
            r == self.integer@.len() + self.fraction@.len() - self.digits_start,
    {
        self.integer_digits() + self.fraction_digits()
    }

    /// The mantissa digits: the integer digits followed by the significant
    /// fraction digits.
    pub fn mantissa_iter(&self) -> (r: Vec<u8>)
        requires
            self.wf(),
        ensures
            r@ == self.integer@ + self.fraction@.skip(self.digits_start as int),
    {
        let mut r = self.integer_iter();
        let mut f = self.fraction_iter();
        r.append(&mut f);
        r
    }

    /// Number of truncated mantissa digits.
    pub fn truncated_digits(&self) -> (r: usize)
        ensures
            r == self.truncated,
    {
        self.truncated
    }

    /// The mantissa exponent for this state, saturating.
    pub fn mantissa_exponent(&self) -> (r: i32)
        ensures
            r == saturate_i32(self.raw_exponent + self.truncated - self.fraction@.len()),
    {
        mantissa_exponent(self.raw_exponent, self.fraction_len(), self.truncated_digits())
    }

    /// The scientific exponent for this state, saturating.
    pub fn scientific_exponent(&self) -> (r: i32)
        ensures
            r == saturate_i32(
                if self.integer@.len() == 0 {
                    self.raw_exponent - self.digits_start - 1
                } else {
                    self.raw_exponent + self.integer@.len() - 1
                },
            ),
    {
        scientific_exponent(self.raw_exponent, self.integer_digits(), self.digits_start)
    }
}

} // verus!
