//! Little-endian values in target memory: decoding what was read, encoding
//! what is written, and reading one address in every integer width.

use vstd::prelude::*;

use crate::types::TraversalResult;

verus! {

/// `256^n`.
pub open spec fn pow256(n: nat) -> nat
    decreases n,
{
    if n == 0 {
        1
    } else {
        256 * pow256((n - 1) as nat)
    }
}

/// The unsigned value of little-endian bytes.
pub open spec fn le_value(b: Seq<u8>) -> nat
    decreases b.len(),
{
    if b.len() == 0 {
        0
    } else {
        b[0] as nat + 256 * le_value(b.drop_first())
    }
}

/// The `w` low bytes of `v`, least significant first.
pub open spec fn le_encode(v: nat, w: nat) -> Seq<u8>
    decreases w,
{
    if w == 0 {
        Seq::<u8>::empty()
    } else {
        seq![(v % 256) as u8] + le_encode(v / 256, (w - 1) as nat)
    }
}

/// The two's complement reading of the unsigned value `v` of `bits` bits.
pub open spec fn as_signed(v: int, bits: nat) -> int {
    if v >= pow2(bits) / 2 {
        v - pow2(bits)
    } else {
        v
    }
}

/// `2^n`.
pub open spec fn pow2(n: nat) -> int
    decreases n,
{
    if n == 0 {
        1
    } else {
        2 * pow2((n - 1) as nat)
    }
}

/// `r` holds what the eight bytes `b` read as, in each width.
pub open spec fn reads_as(r: TraversalResult, b: Seq<u8>) -> bool {
    &&& r.value_u8 as int == le_value(b.take(1))
    &&& r.value_u16 as int == le_value(b.take(2))
    &&& r.value_u32 as int == le_value(b.take(4))
    &&& r.value_u64 as int == le_value(b)
    &&& r.value_i8 as int == as_signed(r.value_u8 as int, 8)
    &&& r.value_i16 as int == as_signed(r.value_u16 as int, 16)
    &&& r.value_i32 as int == as_signed(r.value_u32 as int, 32)
    &&& r.value_i64 as int == as_signed(r.value_u64 as int, 64)
}

/// The powers of 256 and 2 the byte widths use.
pub proof fn lemma_pow_facts()
    ensures
        pow256(1) == 0x100,
        pow256(2) == 0x1_0000,
        pow256(4) == 0x1_0000_0000,
        pow256(8) == 0x1_0000_0000_0000_0000,
        pow2(8) == 0x100,
        pow2(16) == 0x1_0000,
        pow2(32) == 0x1_0000_0000,
        pow2(64) == 0x1_0000_0000_0000_0000,
{
    reveal_with_fuel(pow256, 9);
    reveal_with_fuel(pow2, 65);
}

/// `256^a <= 256^b` when `a <= b`.
pub proof fn lemma_pow256_monotone(a: nat, b: nat)
    requires
        a <= b,
    ensures
        1 <= pow256(a) <= pow256(b),
    decreases b,
{
    if a < b {
        lemma_pow256_monotone(a, (b - 1) as nat);
    } else if b > 0 {
        lemma_pow256_monotone((a - 1) as nat, (b - 1) as nat);
    }
}

/// The value of `n` bytes is below `256^n`.
pub proof fn lemma_le_value_bound(b: Seq<u8>)
    ensures
        le_value(b) < pow256(b.len()),
    decreases b.len(),
{
    if b.len() > 0 {
        lemma_le_value_bound(b.drop_first());
    }
}

/// Encoding then decoding keeps the value modulo `256^w`.
pub proof fn lemma_encode_then_decode(v: nat, w: nat)
    ensures
        le_encode(v, w).len() == w,
        le_value(le_encode(v, w)) == v % pow256(w),
    decreases w,
{
    if w > 0 {
        lemma_encode_then_decode(v / 256, (w - 1) as nat);
        let e = le_encode(v, w);
        assert(e.drop_first() =~= le_encode(v / 256, (w - 1) as nat));
        lemma_pow256_monotone(0, (w - 1) as nat);
        vstd::arithmetic::div_mod::lemma_mod_breakdown(v as int, 256, pow256((w - 1) as nat) as int);
    } else {
        assert(v % 1 == 0) by (nonlinear_arith);
    }
}

/// Decoding then encoding gives back the bytes.
pub proof fn lemma_decode_then_encode(b: Seq<u8>)
    ensures
        le_encode(le_value(b), b.len()) == b,
    decreases b.len(),
{
    if b.len() > 0 {
        lemma_decode_then_encode(b.drop_first());
        let v = le_value(b);
        vstd::arithmetic::div_mod::lemma_fundamental_div_mod_converse(
            v as int,
            256,
            le_value(b.drop_first()) as int,
            b[0] as int,
        );
        assert(le_encode(v, b.len()) =~= b);
    }
}

/// The unsigned value of up to eight little-endian bytes.
pub fn decode_le(bytes: &[u8]) -> (r: u64)
    requires
        bytes@.len() <= 8,
    ensures
        r as int == le_value(bytes@),
{
    let len = bytes.len();
    let mut v: u64 = 0;
    let mut i: usize = len;
    proof {
        lemma_pow_facts();
        assert(bytes@.skip(len as int) =~= Seq::<u8>::empty());
    }
    while i > 0
        invariant
            i <= len == bytes@.len() <= 8,
            v as int == le_value(bytes@.skip(i as int)),
            pow256(8) == 0x1_0000_0000_0000_0000,
        decreases i,
    {
        i = i - 1;
        proof {
            assert(bytes@.skip(i as int).drop_first() =~= bytes@.skip(i + 1));
            lemma_le_value_bound(bytes@.skip(i + 1));
            lemma_pow256_monotone((len - i - 1) as nat, 7);
            reveal_with_fuel(pow256, 9);
        }
        v = v * 256 + bytes[i] as u64;
    }
    assert(bytes@.skip(0) =~= bytes@);
    v
}

/// The `width` low bytes of `value`, least significant first, as
/// `to_le_bytes` lays them out.
pub fn le_bytes(value: u64, width: usize) -> (r: Vec<u8>)
    requires
        width <= 8,
    ensures
        r@ == le_encode(value as nat, width as nat),
{
    let mut r: Vec<u8> = Vec::new();
    let mut v = value;
    let mut i: usize = 0;
    assert(r@ + le_encode(v as nat, width as nat) =~= le_encode(value as nat, width as nat));
    while i < width
        invariant
            i <= width,
            r@ + le_encode(v as nat, (width - i) as nat) == le_encode(value as nat, width as nat),
        decreases width - i,
    {
        let ghost before = r@;
        r.push((v % 256) as u8);
        assert(r@ + le_encode((v / 256) as nat, (width - i - 1) as nat) =~= before + le_encode(
            v as nat,
            (width - i) as nat,
        ));
        v = v / 256;
        i = i + 1;
    }
    assert(le_encode(v as nat, 0) =~= Seq::<u8>::empty());
    assert(r@ + Seq::<u8>::empty() =~= r@);
    r
}

/// The size in bytes of a pointer in the target process: 8 in a 64-bit
/// process, 4 in a 32-bit one.
pub fn pointer_width(is_64bit: bool) -> (r: usize)
    ensures
        r == (if is_64bit { 8usize } else { 4usize }),
{
    if is_64bit {
        8
    } else {
        4
    }
}

/// What a value written with `le_bytes` reads back as.
pub proof fn lemma_write_then_read(value: u64, width: usize)
    requires
        width <= 8,
    ensures
        le_value(le_encode(value as nat, width as nat)) == value as nat % pow256(width as nat),
        le_encode(value as nat, width as nat).len() == width,
{
    lemma_encode_then_decode(value as nat, width as nat);
}

fn signed8(u: u8) -> (r: i8)
    ensures
        r as int == as_signed(u as int, 8),
{
    proof {
        lemma_pow_facts();
    }
    if u < 128 {
        u as i8
    } else {
        (u as i16 - 256) as i8
    }
}

fn signed16(u: u16) -> (r: i16)
    ensures
        r as int == as_signed(u as int, 16),
{
    proof {
        lemma_pow_facts();
    }
    if u < 32768 {
        u as i16
    } else {
        (u as i32 - 65536) as i16
    }
}

fn signed32(u: u32) -> (r: i32)
    ensures
        r as int == as_signed(u as int, 32),
{
    proof {
        lemma_pow_facts();
    }
    if u < 2147483648 {
        u as i32
    } else {
        (u as i64 - 4294967296) as i32
    }
}

/// The two's complement reading of a 64-bit pattern.
pub fn signed64(u: u64) -> (r: i64)
    ensures
        r as int == as_signed(u as int, 64),
{
    proof {
        lemma_pow_facts();
    }
    if u < 9223372036854775808 {
        u as i64
    } else {
        ((u - 9223372036854775808) as i64) - 9223372036854775807 - 1
    }
}

/// The 64-bit pattern of an `i64`.
pub fn unsigned64(v: i64) -> (r: u64)
    ensures
        r as int == (if v < 0 {
            v + 0x1_0000_0000_0000_0000
        } else {
            v as int
        }),
{
    if v < 0 {
        ((v + 9223372036854775807 + 1) as u64) + 9223372036854775808
    } else {
        v as u64
    }
}

/// What was read at `address`: `Some` of the eight bytes read there, or
/// `None` when the read failed.  A failed read gives a blank, invalid
/// result.
pub fn traversal_result_at(address: u64, bytes: Option<&[u8]>) -> (r: TraversalResult)
    requires
        bytes matches Some(b) ==> b@.len() == 8,
    ensures
        match bytes {
            None => r.is_blank_at(address),
            Some(b) => {
                &&& r.label@ == Seq::<char>::empty()
                &&& r.offset_path@ == Seq::<char>::empty()
                &&& r.selected_type@ == "i32"@
                &&& r.actual_address == address
                &&& r.valid
                &&& reads_as(r, b@)
            },
        },
{
    let mut result = TraversalResult::blank_at(address);
    match bytes {
        None => result,
        Some(b) => {
            proof {
                lemma_pow_facts();
                lemma_le_value_bound(b@.take(1));
                lemma_le_value_bound(b@.take(2));
                lemma_le_value_bound(b@.take(4));
                lemma_le_value_bound(b@);
            }
            let v8 = decode_le(&b[0..1]);
            let v16 = decode_le(&b[0..2]);
            let v32 = decode_le(&b[0..4]);
            let v64 = decode_le(b);
            assert(b@.subrange(0, 1) =~= b@.take(1));
            assert(b@.subrange(0, 2) =~= b@.take(2));
            assert(b@.subrange(0, 4) =~= b@.take(4));
            result.valid = true;
            result.value_u8 = v8 as u8;
            result.value_u16 = v16 as u16;
            result.value_u32 = v32 as u32;
            result.value_u64 = v64;
            result.value_i8 = signed8(v8 as u8);
            result.value_i16 = signed16(v16 as u16);
            result.value_i32 = signed32(v32 as u32);
            result.value_i64 = signed64(v64);
            result
        },
    }
}


/// The low `j` bytes of little-endian bytes hold their value modulo
/// `256^j`.
pub proof fn lemma_le_value_low_bytes(x: Seq<u8>, j: nat)
    requires
        j <= x.len(),
    ensures
        le_value(x) % pow256(j) == le_value(x.take(j as int)),
    decreases j,
{
    if j == 0 {
        assert(x.take(0) =~= Seq::<u8>::empty());
        assert(le_value(x) % 1 == 0) by (nonlinear_arith);
    } else {
        let rest = x.drop_first();
        lemma_le_value_low_bytes(rest, (j - 1) as nat);
        assert(x.take(j as int).drop_first() =~= rest.take(j - 1));
        let v = le_value(x);
        vstd::arithmetic::div_mod::lemma_fundamental_div_mod_converse(
            v as int,
            256,
            le_value(rest) as int,
            x[0] as int,
        );
        lemma_pow256_monotone(0, (j - 1) as nat);
        vstd::arithmetic::div_mod::lemma_mod_breakdown(v as int, 256, pow256((j - 1) as nat) as int);
    }
}

/// The readings of one address agree: each narrower unsigned reading is
/// the low bytes of the wider one, and each signed reading has the bits of
/// the unsigned reading of its width.
pub proof fn law_widths_agree(r: TraversalResult, b: Seq<u8>)
    requires
        b.len() == 8,
        reads_as(r, b),
    ensures
        r.value_u16 % 0x100 == r.value_u8,
        r.value_u32 % 0x1_0000 == r.value_u16,
        r.value_u64 % 0x1_0000_0000 == r.value_u32,
        (r.value_i8 + 0x100) % 0x100 == r.value_u8,
        (r.value_i16 + 0x1_0000) % 0x1_0000 == r.value_u16,
        (r.value_i32 + 0x1_0000_0000) % 0x1_0000_0000 == r.value_u32,
        (r.value_i64 + 0x1_0000_0000_0000_0000) % 0x1_0000_0000_0000_0000 == r.value_u64,
{
    lemma_pow_facts();
    lemma_le_value_low_bytes(b.take(2), 1);
    assert(b.take(2).take(1) =~= b.take(1));
    lemma_le_value_low_bytes(b.take(4), 2);
    assert(b.take(4).take(2) =~= b.take(2));
    lemma_le_value_low_bytes(b, 4);
}

} // verus!
