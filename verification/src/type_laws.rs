//! What the data type tags mean: how many bytes a value of each type takes,
//! in the entity scanner, in its refresh and in the exported header.

use vstd::prelude::*;

use crate::entity::{decoded_value, refresh_width_of, value_width};
use crate::export::{cpp_type_of, size_of_type};
use crate::memory::{as_signed, le_encode, lemma_encode_then_decode, lemma_pow_facts, pow2, pow256};

verus! {

/// The data types the entity scanner offers.
pub open spec fn offered_types() -> Seq<Seq<char>> {
    seq!["i8"@, "i16"@, "i32"@, "i64"@, "f32"@, "f64"@]
}

/// The size in bytes of a C++ fixed-width integer or floating type, by its
/// name (`float` and `double` as IEEE single and double).
pub open spec fn cpp_type_bytes(name: Seq<char>) -> nat {
    if name == "int8_t"@ || name == "uint8_t"@ {
        1
    } else if name == "int16_t"@ || name == "uint16_t"@ {
        2
    } else if name == "int32_t"@ || name == "uint32_t"@ || name == "float"@ {
        4
    } else if name == "int64_t"@ || name == "uint64_t"@ || name == "double"@ {
        8
    } else {
        0
    }
}

/// The type tags are different texts.
proof fn lemma_tags_differ()
    ensures
        "i8"@ != "i16"@,
        "i8"@ != "i32"@,
        "i8"@ != "i64"@,
        "i8"@ != "u8"@,
        "i8"@ != "u16"@,
        "i8"@ != "u32"@,
        "i8"@ != "u64"@,
        "i8"@ != "f32"@,
        "i8"@ != "f64"@,
        "i16"@ != "i32"@,
        "i16"@ != "i64"@,
        "i16"@ != "u8"@,
        "i16"@ != "u16"@,
        "i16"@ != "u32"@,
        "i16"@ != "u64"@,
        "i16"@ != "f32"@,
        "i16"@ != "f64"@,
        "i32"@ != "i64"@,
        "i32"@ != "u8"@,
        "i32"@ != "u16"@,
        "i32"@ != "u32"@,
        "i32"@ != "u64"@,
        "i32"@ != "f32"@,
        "i32"@ != "f64"@,
        "i64"@ != "u8"@,
        "i64"@ != "u16"@,
        "i64"@ != "u32"@,
        "i64"@ != "u64"@,
        "i64"@ != "f32"@,
        "i64"@ != "f64"@,
        "u8"@ != "u16"@,
        "u8"@ != "u32"@,
        "u8"@ != "u64"@,
        "u8"@ != "f32"@,
        "u8"@ != "f64"@,
        "u16"@ != "u32"@,
        "u16"@ != "u64"@,
        "u16"@ != "f32"@,
        "u16"@ != "f64"@,
        "u32"@ != "u64"@,
        "u32"@ != "f32"@,
        "u32"@ != "f64"@,
        "u64"@ != "f32"@,
        "u64"@ != "f64"@,
        "f32"@ != "f64"@,
{
    reveal_strlit("i8");
    reveal_strlit("i16");
    reveal_strlit("i32");
    reveal_strlit("i64");
    reveal_strlit("u8");
    reveal_strlit("u16");
    reveal_strlit("u32");
    reveal_strlit("u64");
    reveal_strlit("f32");
    reveal_strlit("f64");
    assert("i8"@.len() != "i16"@.len());
    assert("i8"@.len() != "i32"@.len());
    assert("i8"@.len() != "i64"@.len());
    assert("i8"@[0] != "u8"@[0]);
    assert("i8"@.len() != "u16"@.len());
    assert("i8"@.len() != "u32"@.len());
    assert("i8"@.len() != "u64"@.len());
    assert("i8"@.len() != "f32"@.len());
    assert("i8"@.len() != "f64"@.len());
    assert("i16"@[1] != "i32"@[1]);
    assert("i16"@[1] != "i64"@[1]);
    assert("i16"@.len() != "u8"@.len());
    assert("i16"@[0] != "u16"@[0]);
    assert("i16"@[0] != "u32"@[0]);
    assert("i16"@[0] != "u64"@[0]);
    assert("i16"@[0] != "f32"@[0]);
    assert("i16"@[0] != "f64"@[0]);
    assert("i32"@[1] != "i64"@[1]);
    assert("i32"@.len() != "u8"@.len());
    assert("i32"@[0] != "u16"@[0]);
    assert("i32"@[0] != "u32"@[0]);
    assert("i32"@[0] != "u64"@[0]);
    assert("i32"@[0] != "f32"@[0]);
    assert("i32"@[0] != "f64"@[0]);
    assert("i64"@.len() != "u8"@.len());
    assert("i64"@[0] != "u16"@[0]);
    assert("i64"@[0] != "u32"@[0]);
    assert("i64"@[0] != "u64"@[0]);
    assert("i64"@[0] != "f32"@[0]);
    assert("i64"@[0] != "f64"@[0]);
    assert("u8"@.len() != "u16"@.len());
    assert("u8"@.len() != "u32"@.len());
    assert("u8"@.len() != "u64"@.len());
    assert("u8"@.len() != "f32"@.len());
    assert("u8"@.len() != "f64"@.len());
    assert("u16"@[1] != "u32"@[1]);
    assert("u16"@[1] != "u64"@[1]);
    assert("u16"@[0] != "f32"@[0]);
    assert("u16"@[0] != "f64"@[0]);
    assert("u32"@[1] != "u64"@[1]);
    assert("u32"@[0] != "f32"@[0]);
    assert("u32"@[0] != "f64"@[0]);
    assert("u64"@[0] != "f32"@[0]);
    assert("u64"@[0] != "f64"@[0]);
    assert("f32"@[1] != "f64"@[1]);
}

/// The C++ type names are different texts.
proof fn lemma_cpp_names_differ()
    ensures
        "int8_t"@ != "uint8_t"@,
        "int8_t"@ != "int16_t"@,
        "int8_t"@ != "uint16_t"@,
        "int8_t"@ != "int32_t"@,
        "int8_t"@ != "uint32_t"@,
        "int8_t"@ != "float"@,
        "int8_t"@ != "int64_t"@,
        "int8_t"@ != "uint64_t"@,
        "int8_t"@ != "double"@,
        "uint8_t"@ != "int16_t"@,
        "uint8_t"@ != "uint16_t"@,
        "uint8_t"@ != "int32_t"@,
        "uint8_t"@ != "uint32_t"@,
        "uint8_t"@ != "float"@,
        "uint8_t"@ != "int64_t"@,
        "uint8_t"@ != "uint64_t"@,
        "uint8_t"@ != "double"@,
        "int16_t"@ != "uint16_t"@,
        "int16_t"@ != "int32_t"@,
        "int16_t"@ != "uint32_t"@,
        "int16_t"@ != "float"@,
        "int16_t"@ != "int64_t"@,
        "int16_t"@ != "uint64_t"@,
        "int16_t"@ != "double"@,
        "uint16_t"@ != "int32_t"@,
        "uint16_t"@ != "uint32_t"@,
        "uint16_t"@ != "float"@,
        "uint16_t"@ != "int64_t"@,
        "uint16_t"@ != "uint64_t"@,
        "uint16_t"@ != "double"@,
        "int32_t"@ != "uint32_t"@,
        "int32_t"@ != "float"@,
        "int32_t"@ != "int64_t"@,
        "int32_t"@ != "uint64_t"@,
        "int32_t"@ != "double"@,
        "uint32_t"@ != "float"@,
        "uint32_t"@ != "int64_t"@,
        "uint32_t"@ != "uint64_t"@,
        "uint32_t"@ != "double"@,
        "float"@ != "int64_t"@,
        "float"@ != "uint64_t"@,
        "float"@ != "double"@,
        "int64_t"@ != "uint64_t"@,
        "int64_t"@ != "double"@,
        "uint64_t"@ != "double"@,
{
    reveal_strlit("int8_t");
    reveal_strlit("uint8_t");
    reveal_strlit("int16_t");
    reveal_strlit("uint16_t");
    reveal_strlit("int32_t");
    reveal_strlit("uint32_t");
    reveal_strlit("float");
    reveal_strlit("int64_t");
    reveal_strlit("uint64_t");
    reveal_strlit("double");
    assert("int8_t"@.len() != "uint8_t"@.len());
    assert("int8_t"@.len() != "int16_t"@.len());
    assert("int8_t"@.len() != "uint16_t"@.len());
    assert("int8_t"@.len() != "int32_t"@.len());
    assert("int8_t"@.len() != "uint32_t"@.len());
    assert("int8_t"@.len() != "float"@.len());
    assert("int8_t"@.len() != "int64_t"@.len());
    assert("int8_t"@.len() != "uint64_t"@.len());
    assert("int8_t"@[0] != "double"@[0]);
    assert("uint8_t"@[0] != "int16_t"@[0]);
    assert("uint8_t"@.len() != "uint16_t"@.len());
    assert("uint8_t"@[0] != "int32_t"@[0]);
    assert("uint8_t"@.len() != "uint32_t"@.len());
    assert("uint8_t"@.len() != "float"@.len());
    assert("uint8_t"@[0] != "int64_t"@[0]);
    assert("uint8_t"@.len() != "uint64_t"@.len());
    assert("uint8_t"@.len() != "double"@.len());
    assert("int16_t"@.len() != "uint16_t"@.len());
    assert("int16_t"@[3] != "int32_t"@[3]);
    assert("int16_t"@.len() != "uint32_t"@.len());
    assert("int16_t"@.len() != "float"@.len());
    assert("int16_t"@[3] != "int64_t"@[3]);
    assert("int16_t"@.len() != "uint64_t"@.len());
    assert("int16_t"@.len() != "double"@.len());
    assert("uint16_t"@.len() != "int32_t"@.len());
    assert("uint16_t"@[4] != "uint32_t"@[4]);
    assert("uint16_t"@.len() != "float"@.len());
    assert("uint16_t"@.len() != "int64_t"@.len());
    assert("uint16_t"@[4] != "uint64_t"@[4]);
    assert("uint16_t"@.len() != "double"@.len());
    assert("int32_t"@.len() != "uint32_t"@.len());
    assert("int32_t"@.len() != "float"@.len());
    assert("int32_t"@[3] != "int64_t"@[3]);
    assert("int32_t"@.len() != "uint64_t"@.len());
    assert("int32_t"@.len() != "double"@.len());
    assert("uint32_t"@.len() != "float"@.len());
    assert("uint32_t"@.len() != "int64_t"@.len());
    assert("uint32_t"@[4] != "uint64_t"@[4]);
    assert("uint32_t"@.len() != "double"@.len());
    assert("float"@.len() != "int64_t"@.len());
    assert("float"@.len() != "uint64_t"@.len());
    assert("float"@.len() != "double"@.len());
    assert("int64_t"@.len() != "uint64_t"@.len());
    assert("int64_t"@.len() != "double"@.len());
    assert("uint64_t"@.len() != "double"@.len());
}

/// The unsigned bits of a `bits`-bit two's complement value.
pub open spec fn unsigned_bits(v: int, bits: nat) -> nat {
    (if v < 0 {
        v + pow2(bits)
    } else {
        v
    }) as nat
}

/// Every value of a scanned type is read back from its little-endian bytes
/// at the width the scanner reads: each `i8`, `i16`, `i32` and `i64`, and
/// the bits of each `f32` and `f64`.
pub proof fn law_entity_values_read_back(v: int)
    ensures
        -0x80 <= v < 0x80 ==> decoded_value("i8"@, le_encode(unsigned_bits(v, 8), value_width("i8"@))) == v,
        -0x8000 <= v < 0x8000 ==> decoded_value("i16"@, le_encode(unsigned_bits(v, 16), value_width("i16"@)))
            == v,
        -0x8000_0000 <= v < 0x8000_0000 ==> decoded_value(
            "i32"@,
            le_encode(unsigned_bits(v, 32), value_width("i32"@)),
        ) == v,
        -0x8000_0000_0000_0000 <= v < 0x8000_0000_0000_0000 ==> decoded_value(
            "i64"@,
            le_encode(unsigned_bits(v, 64), value_width("i64"@)),
        ) == v,
        0 <= v < 0x1_0000_0000 ==> decoded_value("f32"@, le_encode(v as nat, value_width("f32"@))) == v,
        -0x8000_0000_0000_0000 <= v < 0x8000_0000_0000_0000 ==> decoded_value(
            "f64"@,
            le_encode(unsigned_bits(v, 64), value_width("f64"@)),
        ) == v,
{
    lemma_tags_differ();
    lemma_pow_facts();
    lemma_encode_then_decode(unsigned_bits(v, 8), 1);
    lemma_encode_then_decode(unsigned_bits(v, 16), 2);
    lemma_encode_then_decode(unsigned_bits(v, 32), 4);
    lemma_encode_then_decode(unsigned_bits(v, 64), 8);
    if 0 <= v {
        lemma_encode_then_decode(v as nat, 4);
    }
}

/// The scanner reads each offered type with as many bytes as the header
/// export gives that type, and the export gives each tag the size of the
/// C++ type it declares it with.
pub proof fn law_type_sizes_agree(t: Seq<char>)
    ensures
        offered_types().contains(t) ==> value_width(t) == size_of_type(t),
        size_of_type(t) == cpp_type_bytes(cpp_type_of(t)),
{
    lemma_tags_differ();
    lemma_cpp_names_differ();
    if offered_types().contains(t) {
        let i = choose|i: int| 0 <= i < offered_types().len() && offered_types()[i] == t;
        assert(0 <= i < 6);
    }
}

/// A refresh reads every offered type, with the width the scanner reads
/// it, and no other tag.
pub proof fn law_refresh_reads_offered_types(t: Seq<char>)
    ensures
        offered_types().contains(t) ==> refresh_width_of(t) == Some(value_width(t)),
        !offered_types().contains(t) ==> refresh_width_of(t) is None,
{
    if offered_types().contains(t) {
        let i = choose|i: int| 0 <= i < offered_types().len() && offered_types()[i] == t;
        assert(0 <= i < 6);
    } else {
        assert(offered_types()[0] == "i8"@);
        assert(offered_types()[1] == "i16"@);
        assert(offered_types()[2] == "i32"@);
        assert(offered_types()[3] == "i64"@);
        assert(offered_types()[4] == "f32"@);
        assert(offered_types()[5] == "f64"@);
    }
}

} // verus!
