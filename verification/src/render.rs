//! Rendering helpers for the printable key forms.
//!
//! Keys print through plain `String` builders with exact contracts: the
//! character sequence of the result is fixed by the spec functions
//! here.

use vstd::prelude::*;

verus! {

/// The character for one digit value, decimal or lower-case hex.
pub open spec fn digit_char(d: u8) -> char {
    if d < 10 {
        (d + 48) as char
    } else {
        (d + 87) as char
    }
}

/// The decimal digits of `n`, most significant first.
pub open spec fn dec_digits(n: nat) -> Seq<char>
    decreases n,
{
    if n < 10 {
        seq![digit_char(n as u8)]
    } else {
        dec_digits(n / 10).push(digit_char((n % 10) as u8))
    }
}

/// The two hex digits of one byte.
pub open spec fn hex_pair(b: u8) -> Seq<char> {
    seq![digit_char(b / 16), digit_char(b % 16)]
}

/// The character for a digit value below sixteen.
pub fn digit_exec(d: u8) -> (c: char)
    requires
        d < 16,
    ensures
        c == digit_char(d),
{
    if d < 10 {
        (d + 48) as char
    } else {
        (d + 87) as char
    }
}

/// Append the decimal form of `n`.
pub fn push_decimal(s: &mut String, n: u32)
    ensures
        final(s)@ == old(s)@ + dec_digits(n as nat),
    decreases n,
{
    let ghost s0 = s@;
    if n >= 10 {
        push_decimal(s, n / 10);
    }
    let d: u8 = (n % 10) as u8;
    s.push(digit_exec(d));
    proof {
        if n >= 10 {
            assert(s@ =~= s0 + dec_digits(n as nat));
        } else {
            assert(s@ =~= s0 + dec_digits(n as nat));
        }
    }
}

/// Append the two hex digits of `b`.
pub fn push_hex(s: &mut String, b: u8)
    ensures
        final(s)@ == old(s)@ + hex_pair(b),
{
    let ghost s0 = s@;
    s.push(digit_exec(b / 16));
    s.push(digit_exec(b % 16));
    proof {
        assert(s@ =~= s0 + hex_pair(b));
    }
}

} // verus!
