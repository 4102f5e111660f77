//! Integer parsing with the grammar and the error order of std's
//! `from_str_radix` (and `str::parse`), for radix 10 and 16, and the texts of
//! its errors.

use vstd::prelude::*;

use crate::text::string_from;

verus! {

/// Why a text is not an integer, in the order std reports it.
#[derive(Clone, Copy, Debug, PartialEq, Eq, Structural)]
pub enum IntErrorKind {
    Empty,
    InvalidDigit,
    PosOverflow,
    NegOverflow,
}

/// The value of digit `c` in `radix` (10 or 16), as `char::to_digit`.
pub open spec fn digit_of(c: char, radix: int) -> Option<int> {
    let u = c as u32 as int;
    if 48 <= u <= 57 {
        Some(u - 48)
    } else if radix == 16 && 97 <= u <= 102 {
        Some(u - 87)
    } else if radix == 16 && 65 <= u <= 70 {
        Some(u - 55)
    } else {
        None
    }
}

/// Reads the digits `ds` left to right into a value in `[lo, hi]`,
/// subtracting each digit when `negative`; the first digit that is not a
/// digit, or that takes the value out of range, decides the error.
pub open spec fn accumulate(ds: Seq<char>, radix: int, negative: bool, lo: int, hi: int) -> Result<
    int,
    IntErrorKind,
>
    decreases ds.len(),
{
    if ds.len() == 0 {
        Ok(0)
    } else {
        match accumulate(ds.drop_last(), radix, negative, lo, hi) {
            Err(e) => Err(e),
            Ok(v) => match digit_of(ds.last(), radix) {
                None => Err(IntErrorKind::InvalidDigit),
                Some(d) => {
                    let w = if negative {
                        v * radix - d
                    } else {
                        v * radix + d
                    };
                    if lo <= w <= hi {
                        Ok(w)
                    } else if negative {
                        Err(IntErrorKind::NegOverflow)
                    } else {
                        Err(IntErrorKind::PosOverflow)
                    }
                },
            },
        }
    }
}

/// The lowest value of the target type (`i64` when `signed`, else `u64`).
pub open spec fn low_bound(signed: bool) -> int {
    if signed {
        i64::MIN as int
    } else {
        0
    }
}

/// The highest value of the target type (`i64` when `signed`, else `u64`).
pub open spec fn high_bound(signed: bool) -> int {
    if signed {
        i64::MAX as int
    } else {
        u64::MAX as int
    }
}

/// What `i64::from_str_radix` (when `signed`) or `u64::from_str_radix`
/// gives for `s`: an optional sign (`-` only for signed types), then at least
/// one digit.
pub open spec fn from_str_radix(s: Seq<char>, radix: int, signed: bool) -> Result<
    int,
    IntErrorKind,
> {
    let lo = low_bound(signed);
    let hi = high_bound(signed);
    if s.len() == 0 {
        Err(IntErrorKind::Empty)
    } else if (s[0] == '+' || s[0] == '-') && s.len() == 1 {
        Err(IntErrorKind::InvalidDigit)
    } else if s[0] == '+' {
        accumulate(s.drop_first(), radix, false, lo, hi)
    } else if s[0] == '-' && signed {
        accumulate(s.drop_first(), radix, true, lo, hi)
    } else {
        accumulate(s, radix, false, lo, hi)
    }
}

/// The text std shows for each kind of integer error.
pub open spec fn int_error_text(k: IntErrorKind) -> Seq<char> {
    match k {
        IntErrorKind::Empty => "cannot parse integer from empty string"@,
        IntErrorKind::InvalidDigit => "invalid digit found in string"@,
        IntErrorKind::PosOverflow => "number too large to fit in target type"@,
        IntErrorKind::NegOverflow => "number too small to fit in target type"@,
    }
}

/// Accumulating digits stays within the bounds it checks against.
pub proof fn lemma_accumulate_in_range(ds: Seq<char>, radix: int, negative: bool, lo: int, hi: int)
    requires
        lo <= 0 <= hi,
    ensures
        accumulate(ds, radix, negative, lo, hi) matches Ok(v) ==> lo <= v <= hi,
    decreases ds.len(),
{
    if ds.len() > 0 {
        lemma_accumulate_in_range(ds.drop_last(), radix, negative, lo, hi);
    }
}

/// The value of a digit character, as `char::to_digit(radix)`.
pub fn digit_value(c: char, radix: u32) -> (r: Option<u32>)
    requires
        radix == 10 || radix == 16,
    ensures
        match r {
            Some(d) => digit_of(c, radix as int) == Some(d as int) && d < radix,
            None => digit_of(c, radix as int) is None,
        },
{
    let u = c as u32;
    if 48 <= u && u <= 57 {
        Some(u - 48)
    } else if radix == 16 && 97 <= u && u <= 102 {
        Some(u - 87)
    } else if radix == 16 && 65 <= u && u <= 70 {
        Some(u - 55)
    } else {
        None
    }
}

fn accumulate_digits(ds: &[char], start: usize, radix: u32, negative: bool, signed: bool) -> (r:
    Result<i128, IntErrorKind>)
    requires
        radix == 10 || radix == 16,
        start <= ds.len(),
    ensures
        match r {
            Ok(v) => accumulate(
                ds@.skip(start as int),
                radix as int,
                negative,
                low_bound(signed),
                high_bound(signed),
            ) == Ok::<int, IntErrorKind>(v as int),
            Err(e) => accumulate(
                ds@.skip(start as int),
                radix as int,
                negative,
                low_bound(signed),
                high_bound(signed),
            ) == Err::<int, IntErrorKind>(e),
        },
{
    let ghost digits = ds@.skip(start as int);
    let lo: i128 = if signed {
        -9223372036854775808
    } else {
        0
    };
    let hi: i128 = if signed {
        9223372036854775807
    } else {
        18446744073709551615
    };
    let r: i128 = radix as i128;
    let mut v: i128 = 0;
    let mut i: usize = start;
    assert(digits.take(0) =~= Seq::<char>::empty());
    while i < ds.len()
        invariant
            start <= i <= ds.len(),
            radix == 10 || radix == 16,
            r == radix,
            lo == low_bound(signed),
            hi == high_bound(signed),
            digits == ds@.skip(start as int),
            lo <= v <= hi,
            accumulate(digits.take(i - start), radix as int, negative, lo as int, hi as int) == Ok::<
                int,
                IntErrorKind,
            >(v as int),
        decreases ds.len() - i,
    {
        let ghost prefix = digits.take(i + 1 - start);
        assert(prefix.drop_last() =~= digits.take(i - start));
        assert(prefix.last() == ds@[i as int]);
        match digit_value(ds[i], radix) {
            None => {
                proof {
                    lemma_accumulate_error_extends(
                        digits,
                        i + 1 - start,
                        radix as int,
                        negative,
                        lo as int,
                        hi as int,
                    );
                }
                return Err(IntErrorKind::InvalidDigit);
            },
            Some(d) => {
                let w: i128 = if negative {
                    v * r - d as i128
                } else {
                    v * r + d as i128
                };
                if w < lo || w > hi {
                    if negative {
                        assert(accumulate(prefix, radix as int, negative, lo as int, hi as int)
                            == Err::<int, IntErrorKind>(IntErrorKind::NegOverflow));
                        proof {
                            lemma_accumulate_error_extends(
                                digits,
                                i + 1 - start,
                                radix as int,
                                negative,
                                lo as int,
                                hi as int,
                            );
                        }
                        return Err(IntErrorKind::NegOverflow);
                    } else {
                        proof {
                            lemma_accumulate_error_extends(
                                digits,
                                i + 1 - start,
                                radix as int,
                                negative,
                                lo as int,
                                hi as int,
                            );
                        }
                        return Err(IntErrorKind::PosOverflow);
                    }
                }
                v = w;
            },
        }
        i = i + 1;
    }
    assert(digits.take(ds.len() - start) =~= digits);
    Ok(v)
}

/// An error in a prefix of the digits is the error of the whole.
pub proof fn lemma_accumulate_error_extends(
    ds: Seq<char>,
    n: int,
    radix: int,
    negative: bool,
    lo: int,
    hi: int,
)
    requires
        0 <= n <= ds.len(),
        accumulate(ds.take(n), radix, negative, lo, hi) is Err,
    ensures
        accumulate(ds, radix, negative, lo, hi) == accumulate(ds.take(n), radix, negative, lo, hi),
    decreases ds.len() - n,
{
    if n < ds.len() {
        assert(ds.take(n + 1).drop_last() =~= ds.take(n));
        lemma_accumulate_error_extends(ds, n + 1, radix, negative, lo, hi);
    } else {
        assert(ds.take(n) =~= ds);
    }
}

/// `from_str_radix` over the characters `s`, as `i64` (when `signed`) or
/// `u64`; the value is returned widened.
pub fn parse_radix(s: &[char], radix: u32, signed: bool) -> (r: Result<i128, IntErrorKind>)
    requires
        radix == 10 || radix == 16,
    ensures
        match r {
            Ok(v) => from_str_radix(s@, radix as int, signed) == Ok::<int, IntErrorKind>(v as int)
                && low_bound(signed) <= v <= high_bound(signed),
            Err(e) => from_str_radix(s@, radix as int, signed) == Err::<int, IntErrorKind>(e),
        },
{
    if s.len() == 0 {
        return Err(IntErrorKind::Empty);
    }
    if (s[0] == '+' || s[0] == '-') && s.len() == 1 {
        return Err(IntErrorKind::InvalidDigit);
    }
    let r = if s[0] == '+' {
        assert(s@.skip(1) =~= s@.drop_first());
        accumulate_digits(s, 1, radix, false, signed)
    } else if s[0] == '-' && signed {
        assert(s@.skip(1) =~= s@.drop_first());
        accumulate_digits(s, 1, radix, true, signed)
    } else {
        assert(s@.skip(0) =~= s@);
        accumulate_digits(s, 0, radix, false, signed)
    };
    proof {
        if s[0] == '+' {
            lemma_accumulate_in_range(s@.drop_first(), radix as int, false, low_bound(signed), high_bound(signed));
        } else if s[0] == '-' && signed {
            lemma_accumulate_in_range(s@.drop_first(), radix as int, true, low_bound(signed), high_bound(signed));
        } else {
            lemma_accumulate_in_range(s@, radix as int, false, low_bound(signed), high_bound(signed));
        }
    }
    r
}

/// What `str::parse::<u32>` gives for `s`, as an option.
pub open spec fn u32_of(s: Seq<char>) -> Option<u32> {
    match from_str_radix(s, 10, false) {
        Ok(v) => if v <= u32::MAX {
            Some(v as u32)
        } else {
            None
        },
        Err(_) => None,
    }
}

/// What `str::parse::<i32>` gives for `s`, as an option.
pub open spec fn i32_of(s: Seq<char>) -> Option<i32> {
    match from_str_radix(s, 10, true) {
        Ok(v) => if i32::MIN <= v <= i32::MAX {
            Some(v as i32)
        } else {
            None
        },
        Err(_) => None,
    }
}

/// What `str::parse::<u64>` gives for `s`, as an option.
pub open spec fn u64_of(s: Seq<char>) -> Option<u64> {
    match from_str_radix(s, 10, false) {
        Ok(v) => Some(v as u64),
        Err(_) => None,
    }
}

/// A decimal `u32` typed by the user (a loop count or a step size).
pub fn parse_u32(s: &str) -> (r: Option<u32>)
    ensures
        r == u32_of(s@),
{
    let c = crate::text::chars_of(s);
    match parse_radix(c.as_slice(), 10, false) {
        Ok(v) => if v <= 0xFFFF_FFFF {
            Some(v as u32)
        } else {
            None
        },
        Err(_) => None,
    }
}

/// A decimal `i32` typed by the user (the index of the offset a scan
/// varies).
pub fn parse_i32(s: &str) -> (r: Option<i32>)
    ensures
        r == i32_of(s@),
{
    let c = crate::text::chars_of(s);
    match parse_radix(c.as_slice(), 10, true) {
        Ok(v) => if -2147483648 <= v && v <= 2147483647 {
            Some(v as i32)
        } else {
            None
        },
        Err(_) => None,
    }
}

/// A decimal `u64` typed by the user (a refresh interval).
pub fn parse_u64(s: &str) -> (r: Option<u64>)
    ensures
        r == u64_of(s@),
{
    let c = crate::text::chars_of(s);
    match parse_radix(c.as_slice(), 10, false) {
        Ok(v) => Some(v as u64),
        Err(_) => None,
    }
}

/// The text std shows for an integer error of kind `k`.
pub fn int_error_message(k: IntErrorKind) -> (s: String)
    ensures
        s@ == int_error_text(k),
{
    match k {
        IntErrorKind::Empty => string_from("cannot parse integer from empty string"),
        IntErrorKind::InvalidDigit => string_from("invalid digit found in string"),
        IntErrorKind::PosOverflow => string_from("number too large to fit in target type"),
        IntErrorKind::NegOverflow => string_from("number too small to fit in target type"),
    }
}

} // verus!
