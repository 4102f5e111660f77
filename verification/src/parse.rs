//! Parsing of the user's address and offset texts: single hex or decimal
//! offsets, base addresses, and offset lists in the `a+b+c` form or in the
//! bracketed `[[[base]+a]+b]+c` form.

use vstd::prelude::*;

use crate::number::{from_str_radix, int_error_message, int_error_text, parse_radix, IntErrorKind};
use crate::text::{
    chars_of, contains_char, copy_range, find_char, find_first, has_hex_prefix, push_str,
    split_chars, split_on, string_from, strip_leading, stripped_leading, trim, trimmed, views,
};

verus! {

/// The offset a parsed magnitude stands for once its sign is applied; the
/// negation of `i64::MIN` wraps to itself, as two's complement arithmetic
/// gives it.
pub open spec fn signed_value(negative: bool, v: int) -> i64 {
    if negative {
        if v == i64::MIN as int {
            i64::MIN
        } else {
            (-v) as i64
        }
    } else {
        v as i64
    }
}

/// A single offset: after trimming, an optional leading `-`, then either
/// `0x`/`0X` and a hex `i64`, or a decimal `i64`.
pub open spec fn hex_or_dec(s: Seq<char>) -> Result<i64, Seq<char>> {
    let t = trim(s);
    let negative = t.len() > 0 && t[0] == '-';
    let rest = if negative {
        t.drop_first()
    } else {
        t
    };
    if has_hex_prefix(rest) {
        match from_str_radix(rest.skip(2), 16, true) {
            Ok(v) => Ok(signed_value(negative, v)),
            Err(k) => Err("Invalid hex: "@ + int_error_text(k)),
        }
    } else {
        match from_str_radix(rest, 10, true) {
            Ok(v) => Ok(signed_value(negative, v)),
            Err(k) => Err("Invalid number: "@ + int_error_text(k)),
        }
    }
}

/// A base address: after trimming, `0x`/`0X` and a hex `u64`; otherwise a
/// hex `u64` without prefix, or, when that fails, a decimal `u64`.
pub open spec fn base_address_of(s: Seq<char>) -> Result<u64, Seq<char>> {
    let t = trim(s);
    if t.len() == 0 {
        Err("Empty address"@)
    } else if has_hex_prefix(t) {
        match from_str_radix(t.skip(2), 16, false) {
            Ok(v) => Ok(v as u64),
            Err(k) => Err("Invalid hex address: "@ + int_error_text(k)),
        }
    } else {
        match from_str_radix(t, 16, false) {
            Ok(v) => Ok(v as u64),
            Err(_) => match from_str_radix(t, 10, false) {
                Ok(v) => Ok(v as u64),
                Err(k) => Err("Invalid address: "@ + int_error_text(k)),
            },
        }
    }
}

/// The offsets of the plain form, piece by piece: every piece that is not
/// blank once trimmed must be an offset, and the first that is not decides
/// the error.
pub open spec fn plain_offsets(ps: Seq<Seq<char>>) -> Result<Seq<i64>, Seq<char>>
    decreases ps.len(),
{
    if ps.len() == 0 {
        Ok(Seq::<i64>::empty())
    } else {
        match plain_offsets(ps.drop_last()) {
            Err(e) => Err(e),
            Ok(vs) => {
                let p = trim(ps.last());
                if p.len() == 0 {
                    Ok(vs)
                } else {
                    match hex_or_dec(p) {
                        Ok(v) => Ok(vs.push(v)),
                        Err(e) => Err(e),
                    }
                }
            },
        }
    }
}

/// The offsets of the pieces of the bracketed form: each piece, trimmed and
/// stripped of its leading `+` signs, gives an offset when it parses as
/// one; blank or unparsable pieces are skipped.
pub open spec fn bracket_values(ps: Seq<Seq<char>>) -> Seq<i64>
    decreases ps.len(),
{
    if ps.len() == 0 {
        Seq::<i64>::empty()
    } else {
        let r = bracket_values(ps.drop_last());
        let o = trim(strip_leading(trim(ps.last()), '+'));
        if o.len() == 0 {
            r
        } else {
            match hex_or_dec(o) {
                Ok(v) => r.push(v),
                Err(_) => r,
            }
        }
    }
}

/// `s` is the word `base` in any ASCII case.
pub open spec fn is_base_word(s: Seq<char>) -> bool {
    &&& s.len() == 4
    &&& (s[0] == 'b' || s[0] == 'B')
    &&& (s[1] == 'a' || s[1] == 'A')
    &&& (s[2] == 's' || s[2] == 'S')
    &&& (s[3] == 'e' || s[3] == 'E')
}

/// The offsets of the bracketed form: the leading `[`s are dropped; the text
/// before the first `]`, unless it is empty or `base`, is an offset when it
/// parses as one; then each piece between `]`s contributes as in
/// `bracket_values`.
pub open spec fn bracket_offsets(s: Seq<char>) -> Seq<i64> {
    let cur = strip_leading(trim(s), '[');
    match find_char(cur, ']') {
        Some(pos) => {
            let before = cur.take(pos);
            let head = if before.len() > 0 && !is_base_word(before) {
                match hex_or_dec(before) {
                    Ok(v) => seq![v],
                    Err(_) => Seq::<i64>::empty(),
                }
            } else {
                Seq::<i64>::empty()
            };
            head + bracket_values(split_on(cur.skip(pos), seq![']']))
        },
        None => bracket_values(split_on(cur, seq![']'])),
    }
}

/// An offset list: blank gives none; a text holding `[` is read in the
/// bracketed form; any other is split at `+`, `,` and space.
pub open spec fn offsets_of(s: Seq<char>) -> Result<Seq<i64>, Seq<char>> {
    let t = trim(s);
    if t.len() == 0 {
        Ok(Seq::<i64>::empty())
    } else if t.contains('[') {
        Ok(bracket_offsets(t))
    } else {
        plain_offsets(split_on(t, seq!['+', ',', ' ']))
    }
}

/// Once a prefix of the pieces fails to parse, the whole list fails with
/// the same error.
pub proof fn lemma_plain_error_extends(ps: Seq<Seq<char>>, n: int)
    requires
        0 <= n <= ps.len(),
        plain_offsets(ps.take(n)) is Err,
    ensures
        plain_offsets(ps) == plain_offsets(ps.take(n)),
    decreases ps.len() - n,
{
    if n < ps.len() {
        assert(ps.take(n + 1).drop_last() =~= ps.take(n));
        lemma_plain_error_extends(ps, n + 1);
    } else {
        assert(ps.take(n) =~= ps);
    }
}

fn prefixed_message(prefix: &str, k: IntErrorKind) -> (s: String)
    ensures
        s@ == prefix@ + int_error_text(k),
{
    let mut s = string_from(prefix);
    let m = int_error_message(k);
    push_str(&mut s, m.as_str());
    s
}

fn apply_sign(negative: bool, v: i128) -> (r: i64)
    requires
        i64::MIN <= v <= i64::MAX,
    ensures
        r == signed_value(negative, v as int),
{
    if negative {
        if v == -9223372036854775808i128 {
            -9223372036854775808i64
        } else {
            (-v) as i64
        }
    } else {
        v as i64
    }
}

/// `hex_or_dec` over characters.
pub fn hex_or_dec_chars(s: &[char]) -> (r: Result<i64, String>)
    ensures
        match r {
            Ok(v) => hex_or_dec(s@) == Ok::<i64, Seq<char>>(v),
            Err(e) => hex_or_dec(s@) == Err::<i64, Seq<char>>(e@),
        },
{
    let t = trimmed(s);
    let negative = t.len() > 0 && t[0] == '-';
    let rest = if negative {
        copy_range(t.as_slice(), 1, t.len())
    } else {
        t
    };
    proof {
        if negative {
            assert(rest@ =~= trim(s@).drop_first());
        }
    }
    if rest.len() >= 2 && rest[0] == '0' && (rest[1] == 'x' || rest[1] == 'X') {
        let digits = copy_range(rest.as_slice(), 2, rest.len());
        assert(digits@ =~= rest@.skip(2));
        match parse_radix(digits.as_slice(), 16, true) {
            Ok(v) => Ok(apply_sign(negative, v)),
            Err(k) => Err(prefixed_message("Invalid hex: ", k)),
        }
    } else {
        match parse_radix(rest.as_slice(), 10, true) {
            Ok(v) => Ok(apply_sign(negative, v)),
            Err(k) => Err(prefixed_message("Invalid number: ", k)),
        }
    }
}

/// Parses one offset, hex (`0x..`) or decimal, with an optional leading
/// `-`.
pub fn parse_hex_or_dec(input: &str) -> (r: Result<i64, String>)
    ensures
        match r {
            Ok(v) => hex_or_dec(input@) == Ok::<i64, Seq<char>>(v),
            Err(e) => hex_or_dec(input@) == Err::<i64, Seq<char>>(e@),
        },
{
    let cs = chars_of(input);
    hex_or_dec_chars(cs.as_slice())
}

/// Parses a base address: `0x..` hex, bare hex, or decimal.
pub fn parse_base_address(input: &str) -> (r: Result<u64, String>)
    ensures
        match r {
            Ok(v) => base_address_of(input@) == Ok::<u64, Seq<char>>(v),
            Err(e) => base_address_of(input@) == Err::<u64, Seq<char>>(e@),
        },
{
    let cs = chars_of(input);
    base_address_chars(cs.as_slice())
}

/// `base_address_of` over characters.
pub fn base_address_chars(s: &[char]) -> (r: Result<u64, String>)
    ensures
        match r {
            Ok(v) => base_address_of(s@) == Ok::<u64, Seq<char>>(v),
            Err(e) => base_address_of(s@) == Err::<u64, Seq<char>>(e@),
        },
{
    let t = trimmed(s);
    if t.len() == 0 {
        return Err(string_from("Empty address"));
    }
    if t.len() >= 2 && t[0] == '0' && (t[1] == 'x' || t[1] == 'X') {
        let digits = copy_range(t.as_slice(), 2, t.len());
        assert(digits@ =~= t@.skip(2));
        match parse_radix(digits.as_slice(), 16, false) {
            Ok(v) => Ok(v as u64),
            Err(k) => Err(prefixed_message("Invalid hex address: ", k)),
        }
    } else {
        match parse_radix(t.as_slice(), 16, false) {
            Ok(v) => Ok(v as u64),
            Err(_) => match parse_radix(t.as_slice(), 10, false) {
                Ok(v) => Ok(v as u64),
                Err(k) => Err(prefixed_message("Invalid address: ", k)),
            },
        }
    }
}

fn is_base_chars(s: &[char]) -> (r: bool)
    ensures
        r == is_base_word(s@),
{
    s.len() == 4 && (s[0] == 'b' || s[0] == 'B') && (s[1] == 'a' || s[1] == 'A') && (s[2] == 's'
        || s[2] == 'S') && (s[3] == 'e' || s[3] == 'E')
}

fn bracket_piece_values(pieces: &Vec<Vec<char>>, out: &mut Vec<i64>)
    ensures
        final(out)@ == old(out)@ + bracket_values(views(pieces@)),
{
    let ghost base = old(out)@;
    let mut i: usize = 0;
    assert(views(pieces@).take(0) =~= Seq::<Seq<char>>::empty());
    assert(base + bracket_values(Seq::<Seq<char>>::empty()) =~= base);
    while i < pieces.len()
        invariant
            i <= pieces.len(),
            out@ == base + bracket_values(views(pieces@).take(i as int)),
        decreases pieces.len() - i,
    {
        let ghost ps = views(pieces@).take(i + 1);
        assert(ps.drop_last() =~= views(pieces@).take(i as int));
        assert(ps.last() == pieces@[i as int]@);
        let p = trimmed(pieces[i].as_slice());
        let q = stripped_leading(p.as_slice(), '+');
        let o = trimmed(q.as_slice());
        if o.len() > 0 {
            match hex_or_dec_chars(o.as_slice()) {
                Ok(v) => {
                    out.push(v);
                    assert(out@ =~= base + bracket_values(ps));
                },
                Err(_) => {},
            }
        }
        i = i + 1;
    }
    assert(views(pieces@).take(pieces.len() as int) =~= views(pieces@));
}

/// `bracket_offsets` over characters.
pub fn bracket_offsets_chars(s: &[char]) -> (r: Vec<i64>)
    ensures
        r@ == bracket_offsets(s@),
{
    let t = trimmed(s);
    let cur = stripped_leading(t.as_slice(), '[');
    let close = vec![']'];
    assert(close@ =~= seq![']']);
    let mut out: Vec<i64> = Vec::new();
    match find_first(cur.as_slice(), ']') {
        Some(pos) => {
            proof {
                crate::text::lemma_find_char(cur@, ']');
            }
            let before = copy_range(cur.as_slice(), 0, pos);
            assert(before@ =~= cur@.take(pos as int));
            if before.len() > 0 && !is_base_chars(before.as_slice()) {
                match hex_or_dec_chars(before.as_slice()) {
                    Ok(v) => {
                        out.push(v);
                    },
                    Err(_) => {},
                }
            }
            let ghost head = out@;
            let rest = copy_range(cur.as_slice(), pos, cur.len());
            assert(rest@ =~= cur@.skip(pos as int));
            let pieces = split_chars(rest.as_slice(), close.as_slice());
            bracket_piece_values(&pieces, &mut out);
            assert(head =~= (if before@.len() > 0 && !is_base_word(before@) {
                match hex_or_dec(before@) {
                    Ok(v) => seq![v],
                    Err(_) => Seq::<i64>::empty(),
                }
            } else {
                Seq::<i64>::empty()
            }));
        },
        None => {
            let pieces = split_chars(cur.as_slice(), close.as_slice());
            bracket_piece_values(&pieces, &mut out);
            assert(out@ =~= bracket_offsets(s@));
        },
    }
    out
}

/// Parses x64dbg-style bracket notation such as `[[[base]+0x40]+0x20]+0x0`
/// into its offsets; pieces that are not offsets are skipped.
pub fn parse_bracket_notation(input: &str) -> (r: Result<Vec<i64>, String>)
    ensures
        r matches Ok(v) && v@ == bracket_offsets(input@),
{
    let cs = chars_of(input);
    Ok(bracket_offsets_chars(cs.as_slice()))
}

fn plain_piece_values(pieces: &Vec<Vec<char>>) -> (r: Result<Vec<i64>, String>)
    ensures
        match r {
            Ok(v) => plain_offsets(views(pieces@)) == Ok::<Seq<i64>, Seq<char>>(v@),
            Err(e) => plain_offsets(views(pieces@)) == Err::<Seq<i64>, Seq<char>>(e@),
        },
{
    let mut out: Vec<i64> = Vec::new();
    let mut i: usize = 0;
    assert(views(pieces@).take(0) =~= Seq::<Seq<char>>::empty());
    while i < pieces.len()
        invariant
            i <= pieces.len(),
            plain_offsets(views(pieces@).take(i as int)) == Ok::<Seq<i64>, Seq<char>>(out@),
        decreases pieces.len() - i,
    {
        let ghost ps = views(pieces@).take(i + 1);
        assert(ps.drop_last() =~= views(pieces@).take(i as int));
        assert(ps.last() == pieces@[i as int]@);
        let p = trimmed(pieces[i].as_slice());
        if p.len() > 0 {
            match hex_or_dec_chars(p.as_slice()) {
                Ok(v) => {
                    out.push(v);
                },
                Err(e) => {
                    proof {
                        lemma_plain_error_extends(views(pieces@), i + 1);
                    }
                    return Err(e);
                },
            }
        }
        i = i + 1;
    }
    assert(views(pieces@).take(pieces.len() as int) =~= views(pieces@));
    Ok(out)
}

/// Parses an offset list in the `0x3C4+0xC8+0x10` / `0x3C4,0xC8,0x10` form
/// or in the bracketed form `[[[base]+0x40]+0x20]+0x0`.
pub fn parse_offsets(input: &str) -> (r: Result<Vec<i64>, String>)
    ensures
        match r {
            Ok(v) => offsets_of(input@) == Ok::<Seq<i64>, Seq<char>>(v@),
            Err(e) => offsets_of(input@) == Err::<Seq<i64>, Seq<char>>(e@),
        },
{
    let cs = chars_of(input);
    let t = trimmed(cs.as_slice());
    if t.len() == 0 {
        return Ok(Vec::new());
    }
    if contains_char(t.as_slice(), '[') {
        let v = bracket_offsets_chars(t.as_slice());
        return Ok(v);
    }
    let seps = vec!['+', ',', ' '];
    assert(seps@ =~= seq!['+', ',', ' ']);
    let pieces = split_chars(t.as_slice(), seps.as_slice());
    plain_piece_values(&pieces)
}

} // verus!
