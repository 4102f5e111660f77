//! Number texts: `{:#X}` (`0x` and upper-case hex digits) and `{}`
//! (decimal digits).

use vstd::prelude::*;

use crate::text::{push_chars, push_str, string_from};

verus! {

/// The upper-case hex digit for `d < 16`.
pub open spec fn hex_char(d: nat) -> char {
    if d < 10 {
        (48 + d) as char
    } else {
        (55 + d) as char
    }
}

/// The upper-case hex digits of `v`, most significant first, without
/// leading zeros (`0` for zero).
pub open spec fn hex_digits(v: nat) -> Seq<char>
    decreases v,
{
    if v < 16 {
        seq![hex_char(v)]
    } else {
        hex_digits(v / 16).push(hex_char(v % 16))
    }
}

/// `format!("{:#X}", v)`.
pub open spec fn hex_text(v: nat) -> Seq<char> {
    "0x"@ + hex_digits(v)
}

/// The bits of an `i64` read as unsigned, which `{:#X}` prints.
pub open spec fn bits_of(v: i64) -> nat {
    if v < 0 {
        (v + 0x1_0000_0000_0000_0000) as nat
    } else {
        v as nat
    }
}

/// The decimal digit for `d < 10`.
pub open spec fn dec_char(d: nat) -> char {
    (48 + d) as char
}

/// The decimal digits of `v`, most significant first (`0` for zero).
pub open spec fn dec_digits(v: nat) -> Seq<char>
    decreases v,
{
    if v < 10 {
        seq![dec_char(v)]
    } else {
        dec_digits(v / 10).push(dec_char(v % 10))
    }
}

fn hex_digit_char(d: u64) -> (c: char)
    requires
        d < 16,
    ensures
        c == hex_char(d as nat),
{
    if d < 10 {
        ((48 + d) as u8) as char
    } else {
        ((55 + d) as u8) as char
    }
}

/// The hex digits of `v`.
pub fn hex_digit_chars(value: u64) -> (r: Vec<char>)
    ensures
        r@ == hex_digits(value as nat),
{
    let mut v = value;
    let mut r: Vec<char> = Vec::new();
    assert(hex_digits(value as nat) =~= hex_digits(v as nat) + r@);
    while v >= 16
        invariant
            hex_digits(value as nat) == hex_digits(v as nat) + r@,
        decreases v,
    {
        let ghost before = r@;
        let c = hex_digit_char(v % 16);
        r.insert(0, c);
        assert(hex_digits(v as nat) == hex_digits((v / 16) as nat).push(c));
        assert(hex_digits(value as nat) =~= hex_digits((v / 16) as nat) + r@);
        v = v / 16;
    }
    let c = hex_digit_char(v);
    r.insert(0, c);
    assert(hex_digits(value as nat) =~= r@);
    r
}

/// `format!("{:#X}", value)`.
pub fn hex_string(value: u64) -> (s: String)
    ensures
        s@ == hex_text(value as nat),
{
    let mut s = string_from("0x");
    let d = hex_digit_chars(value);
    push_chars(&mut s, d.as_slice());
    s
}

/// `format!("{:#X}", value)` for a signed value: the hex of its bits.
pub fn hex_string_signed(value: i64) -> (s: String)
    ensures
        s@ == hex_text(bits_of(value)),
{
    hex_string(crate::memory::unsigned64(value))
}

/// Appends `format!("{:#X}", value)` to `s`.
pub fn push_hex(s: &mut String, value: u64)
    ensures
        final(s)@ == old(s)@ + hex_text(value as nat),
{
    push_str(s, "0x");
    let d = hex_digit_chars(value);
    push_chars(s, d.as_slice());
    assert(final(s)@ =~= old(s)@ + hex_text(value as nat));
}

/// The decimal digits of `value`.
pub fn dec_digit_chars(value: u64) -> (r: Vec<char>)
    ensures
        r@ == dec_digits(value as nat),
{
    let mut v = value;
    let mut r: Vec<char> = Vec::new();
    assert(dec_digits(value as nat) =~= dec_digits(v as nat) + r@);
    while v >= 10
        invariant
            dec_digits(value as nat) == dec_digits(v as nat) + r@,
        decreases v,
    {
        let c = ((48 + v % 10) as u8) as char;
        r.insert(0, c);
        assert(dec_digits(v as nat) == dec_digits((v / 10) as nat).push(c));
        assert(dec_digits(value as nat) =~= dec_digits((v / 10) as nat) + r@);
        v = v / 10;
    }
    let c = ((48 + v) as u8) as char;
    r.insert(0, c);
    assert(dec_digits(value as nat) =~= r@);
    r
}

/// Appends `format!("{}", value)` to `s`.
pub fn push_dec(s: &mut String, value: u64)
    ensures
        final(s)@ == old(s)@ + dec_digits(value as nat),
{
    let d = dec_digit_chars(value);
    push_chars(s, d.as_slice());
}

} // verus!
