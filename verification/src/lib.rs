//! Conversion of textual numeric literals — byte sequences — into native
//! integer values, together with the analysis of floating-point literals
//! into their integer, fraction and exponent substrings, for any positional
//! radix in `[2, 36]`.
//!
//! The integer parser reports overflow, underflow and invalid digits with
//! the exact byte index at which parsing failed.  The float-string analyzer
//! enforces a strict grammar and produces a [`state::RawFloatState`] whose
//! substrings feed the float synthesis pipeline.  The big-integer types in
//! [`bignum`] back the accurate (correctly rounded) synthesis path.

pub mod atoi;
pub mod bignum;
pub mod digit;
pub mod error;
pub mod exponent;
pub mod laws;
pub mod small_powers;
pub mod state;
