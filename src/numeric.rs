//! Reading the number that a run of digits spells, as each mode reads it.

use vstd::prelude::*;

use crate::args::Mode;

verus! {

/// ASCII codes of the bytes that numbers are made of.
pub const ZERO: u8 = 48;
pub const NINE: u8 = 57;
pub const LOWER_A: u8 = 97;
pub const LOWER_F: u8 = 102;
pub const UPPER_A: u8 = 65;
pub const UPPER_F: u8 = 70;
pub const MINUS: u8 = 45;
pub const PLUS: u8 = 43;

/// An ASCII decimal digit.
pub open spec fn is_digit(c: u8) -> bool {
    ZERO <= c && c <= NINE
}

/// An ASCII hexadecimal digit, in either case.
pub open spec fn is_hex_digit(c: u8) -> bool {
    is_digit(c) || (LOWER_A <= c && c <= LOWER_F) || (UPPER_A <= c && c <= UPPER_F)
}

pub open spec fn hex_digit_value(c: u8) -> nat {
    if is_digit(c) {
        (c - ZERO) as nat
    } else if LOWER_A <= c && c <= LOWER_F {
        (c - LOWER_A + 10) as nat
    } else {
        (c - UPPER_A + 10) as nat
    }
}

/// How many bytes at the start of `s` are decimal digits.
pub open spec fn dec_prefix_len(s: Seq<u8>) -> nat
    decreases s.len(),
{
    if s.len() > 0 && is_digit(s[0]) {
        1 + dec_prefix_len(s.skip(1))
    } else {
        0
    }
}

/// How many bytes at the start of `s` are hexadecimal digits.
pub open spec fn hex_prefix_len(s: Seq<u8>) -> nat
    decreases s.len(),
{
    if s.len() > 0 && is_hex_digit(s[0]) {
        1 + hex_prefix_len(s.skip(1))
    } else {
        0
    }
}

/// The value of `s` read as decimal digits, most significant first.
pub open spec fn dec_value(s: Seq<u8>) -> nat
    decreases s.len(),
{
    if s.len() == 0 {
        0
    } else {
        dec_value(s.drop_last()) * 10 + (s.last() - ZERO) as nat
    }
}

/// The value of `s` read as hexadecimal digits, most significant first.
pub open spec fn hex_value(s: Seq<u8>) -> nat
    decreases s.len(),
{
    if s.len() == 0 {
        0
    } else {
        hex_value(s.drop_last()) * 16 + hex_digit_value(s.last())
    }
}

/// The value of the decimal digits that `s` starts with (zero when there are none).
pub open spec fn leading_dec(s: Seq<u8>) -> nat {
    dec_value(s.take(dec_prefix_len(s) as int))
}

/// The value of the hexadecimal digits that `s` starts with (zero when there are none).
pub open spec fn leading_hex(s: Seq<u8>) -> nat {
    hex_value(s.take(hex_prefix_len(s) as int))
}

/// Whether `s` opens with an explicit sign.
pub open spec fn has_sign(s: Seq<u8>) -> bool {
    s.len() > 0 && (s[0] == MINUS || s[0] == PLUS)
}

/// The value of the optionally signed decimal number that `s` starts with.
pub open spec fn leading_signed(s: Seq<u8>) -> int {
    if has_sign(s) {
        if s[0] == MINUS {
            -leading_dec(s.skip(1))
        } else {
            leading_dec(s.skip(1)) as int
        }
    } else {
        leading_dec(s) as int
    }
}

pub open spec fn clamp(v: int, lo: int, hi: int) -> int {
    if v < lo {
        lo
    } else if v > hi {
        hi
    } else {
        v
    }
}

/// The number at the start of `text` as `mode` reads it: signed decimal
/// clamped to the range of `i64`, or unsigned decimal or hexadecimal clamped
/// to the range of `u64`. Text that does not start with a number reads as zero.
pub open spec fn number_value(text: Seq<u8>, mode: Mode) -> int {
    if mode.sort_negatives() {
        clamp(leading_signed(text), i64::MIN as int, i64::MAX as int)
    } else if mode.consider_hex() {
        clamp(leading_hex(text) as int, 0, u64::MAX as int)
    } else {
        clamp(leading_dec(text) as int, 0, u64::MAX as int)
    }
}

/// Relies on atoi's `FromRadix10Checked::from_radix_10_checked` for `u64`: it
/// reads the leading decimal digits, returns how many there were, and their
/// value, or `None` where the value exceeds `u64::MAX`.
#[verifier::external_body]
fn radix10_u64(text: &[u8]) -> (r: (Option<u64>, usize))
    ensures
        r.1 == dec_prefix_len(text@),
        leading_dec(text@) <= u64::MAX ==> r.0 == Some(leading_dec(text@) as u64),
        leading_dec(text@) > u64::MAX ==> r.0 is None,
{
    <u64 as atoi::FromRadix10Checked>::from_radix_10_checked(text)
}

/// Relies on atoi's `FromRadix16Checked::from_radix_16_checked` for `u64`: it
/// reads the leading hexadecimal digits (`a`-`f` in either case), returns how
/// many there were, and their value, or `None` where it exceeds `u64::MAX`.
#[verifier::external_body]
fn radix16_u64(text: &[u8]) -> (r: (Option<u64>, usize))
    ensures
        r.1 == hex_prefix_len(text@),
        leading_hex(text@) <= u64::MAX ==> r.0 == Some(leading_hex(text@) as u64),
        leading_hex(text@) > u64::MAX ==> r.0 is None,
{
    <u64 as atoi::FromRadix16Checked>::from_radix_16_checked(text)
}

/// Relies on atoi's `FromRadix10SignedChecked::from_radix_10_signed_checked`
/// for `i64`: it reads an optional `+` or `-` and the decimal digits after it,
/// returns how many bytes that took, and the value, or `None` where it falls
/// outside the range of `i64`.
#[verifier::external_body]
fn radix10_signed_i64(text: &[u8]) -> (r: (Option<i64>, usize))
    ensures
        r.1 == (if has_sign(text@) { 1 + dec_prefix_len(text@.skip(1)) } else { dec_prefix_len(text@) }),
        i64::MIN <= leading_signed(text@) <= i64::MAX ==> r.0 == Some(leading_signed(text@) as i64),
        !(i64::MIN <= leading_signed(text@) <= i64::MAX) ==> r.0 is None,
{
    <i64 as atoi::FromRadix10SignedChecked>::from_radix_10_signed_checked(text)
}

/// Reads the number at the start of `text` as `mode` says; a value out of
/// range saturates at the nearest bound, and text without digits reads as zero.
pub fn parse_number(text: &[u8], mode: Mode) -> (r: i128)
    ensures
        r == number_value(text@, mode),
{
    if mode.sort_negatives() {
        let (v, _) = radix10_signed_i64(text);
        match v {
            Some(n) => n as i128,
            None => {
                if text.len() > 0 && text[0] == MINUS {
                    i64::MIN as i128
                } else {
                    i64::MAX as i128
                }
            },
        }
    } else if mode.consider_hex() {
        let (v, _) = radix16_u64(text);
        match v {
            Some(n) => n as i128,
            None => u64::MAX as i128,
        }
    } else {
        let (v, _) = radix10_u64(text);
        match v {
            Some(n) => n as i128,
            None => u64::MAX as i128,
        }
    }
}

} // verus!
