//! Export of traversal results as a C++ header: a struct laid out by the
//! results' final offsets and a reader class with a getter and a setter per
//! result.

use vstd::prelude::*;

use crate::format::{dec_digits, hex_string, hex_text, push_dec, push_hex};
use crate::parse::{base_address_chars, base_address_of, is_base_word};
use crate::text::{
    all_ascii, ascii_digit, ascii_letter, ascii_upper, chars_equal, chars_of, push_chars, push_str, split_chars, split_on, string_from,
    strip_leading, stripped_leading, trim, trimmed, views,
};
use crate::types::TraversalResult;

verus! {

/// Whether `char::is_alphanumeric` holds of `c` (Unicode `Alphabetic` or
/// numeric categories).
pub uninterp spec fn unicode_alphanumeric(c: char) -> bool;

/// Whether `char::is_numeric` holds of `c` (Unicode `Nd`, `Nl`, `No`).
pub uninterp spec fn unicode_numeric(c: char) -> bool;

/// The characters `char::to_uppercase` maps `c` to.
pub uninterp spec fn uppercase_of(c: char) -> Seq<char>;

/// std's `char::is_alphanumeric`; claimed: the result is
/// `unicode_alphanumeric(c)`, a function of `c` alone, and for an ASCII
/// character it holds exactly of the letters and digits (std tests
/// `'a'..='z' | 'A'..='Z'` and `'0'..='9'` before its Unicode tables).
#[verifier::external_body]
fn char_is_alphanumeric(c: char) -> (r: bool)
    ensures
        r == unicode_alphanumeric(c),
        (c as u32) < 128 ==> (r <==> (ascii_letter(c) || ascii_digit(c))),
{
    c.is_alphanumeric()
}

/// std's `char::is_numeric`; claimed: the result is `unicode_numeric(c)`,
/// a function of `c` alone, and for an ASCII character it holds exactly of
/// the digits.
#[verifier::external_body]
fn char_is_numeric(c: char) -> (r: bool)
    ensures
        r == unicode_numeric(c),
        (c as u32) < 128 ==> (r <==> ascii_digit(c)),
{
    c.is_numeric()
}

/// std's `char::to_uppercase`, collected into a string; claimed: its
/// characters are `uppercase_of(c)`, a function of `c` alone, and for an
/// ASCII character they are that one character upper-cased (std maps ASCII
/// through `to_ascii_uppercase`).
#[verifier::external_body]
fn char_to_uppercase(c: char) -> (r: String)
    ensures
        r@ == uppercase_of(c),
        (c as u32) < 128 ==> r@ == seq![ascii_upper(c)],
{
    c.to_uppercase().to_string()
}

/// `char::is_alphanumeric`: for an ASCII character, a letter or a digit;
/// otherwise as Unicode's tables say.
pub open spec fn alphanumeric(c: char) -> bool {
    if (c as u32) < 128 {
        ascii_letter(c) || ascii_digit(c)
    } else {
        unicode_alphanumeric(c)
    }
}

/// `char::is_numeric`: for an ASCII character, a digit; otherwise as
/// Unicode's tables say.
pub open spec fn numeric(c: char) -> bool {
    if (c as u32) < 128 {
        ascii_digit(c)
    } else {
        unicode_numeric(c)
    }
}

/// `char::to_uppercase`: for an ASCII character, that character
/// upper-cased; otherwise as Unicode's tables say.
pub open spec fn upper(c: char) -> Seq<char> {
    if (c as u32) < 128 {
        seq![ascii_upper(c)]
    } else {
        uppercase_of(c)
    }
}

/// The C++ type named by a type tag (`int32_t` for an unknown tag).
pub open spec fn cpp_type_of(t: Seq<char>) -> Seq<char> {
    if t == "i8"@ {
        "int8_t"@
    } else if t == "i16"@ {
        "int16_t"@
    } else if t == "i32"@ {
        "int32_t"@
    } else if t == "i64"@ {
        "int64_t"@
    } else if t == "u8"@ {
        "uint8_t"@
    } else if t == "u16"@ {
        "uint16_t"@
    } else if t == "u32"@ {
        "uint32_t"@
    } else if t == "u64"@ {
        "uint64_t"@
    } else if t == "f32"@ {
        "float"@
    } else if t == "f64"@ {
        "double"@
    } else {
        "int32_t"@
    }
}

/// The size in bytes of the type a tag names (4 for an unknown tag).
pub open spec fn size_of_type(t: Seq<char>) -> u64 {
    if t == "i8"@ || t == "u8"@ {
        1
    } else if t == "i16"@ || t == "u16"@ {
        2
    } else if t == "i32"@ || t == "u32"@ || t == "f32"@ {
        4
    } else if t == "i64"@ || t == "u64"@ || t == "f64"@ {
        8
    } else {
        4
    }
}

/// `s` without its trailing copies of `c`, as `str::trim_end_matches(c)`.
pub open spec fn strip_trailing(s: Seq<char>, c: char) -> Seq<char>
    decreases s.len(),
{
    if s.len() > 0 && s.last() == c {
        strip_trailing(s.drop_last(), c)
    } else {
        s
    }
}

/// The character a label keeps, or `_` for one not allowed in a C++ name.
pub open spec fn name_char(c: char) -> char {
    if alphanumeric(c) || c == '_' {
        c
    } else {
        '_'
    }
}

/// The C++ field name for a label: `field_0x..` (the offset) for an empty
/// label; otherwise each character that is neither alphanumeric nor `_`
/// becomes `_`, and a `_` goes in front when the name would start with a
/// numeric character.
pub open spec fn sanitized(label: Seq<char>, offset: u64) -> Seq<char> {
    if label.len() == 0 {
        "field_"@ + hex_text(offset as nat)
    } else {
        let s = label.map_values(|c: char| name_char(c));
        if numeric(s[0]) {
            "_"@ + s
        } else {
            s
        }
    }
}

/// `s` with its first character upper-cased.
pub open spec fn capitalized(s: Seq<char>) -> Seq<char> {
    if s.len() == 0 {
        Seq::<char>::empty()
    } else {
        upper(s[0]) + s.drop_first()
    }
}

/// The last offset of a path such as `[[base]+0x40]+0x20]+0x100`: the text
/// after its last `+`, trimmed and without trailing `]`s, read as a base
/// address, or 0 when it is none.
pub open spec fn final_offset(path: Seq<char>) -> u64 {
    let parts = split_on(path, seq!['+']);
    let cleaned = strip_trailing(trim(parts.last()), ']');
    match base_address_of(cleaned) {
        Ok(v) => v,
        Err(_) => 0,
    }
}

/// The offsets of a path's `+`-separated parts, each trimmed and stripped
/// of its leading `[`s and trailing `]`s, in `0x..` form; parts that are
/// empty, `base`, or not addresses are left out.
pub open spec fn path_offset_texts(parts: Seq<Seq<char>>) -> Seq<Seq<char>>
    decreases parts.len(),
{
    if parts.len() == 0 {
        Seq::<Seq<char>>::empty()
    } else {
        let r = path_offset_texts(parts.drop_last());
        let c = strip_trailing(strip_leading(trim(parts.last()), '['), ']');
        if is_base_word(c) || c.len() == 0 {
            r
        } else {
            match base_address_of(c) {
                Ok(v) => r.push(hex_text(v as nat)),
                Err(_) => r,
            }
        }
    }
}

/// The items joined with `sep` between them.
pub open spec fn joined(items: Seq<Seq<char>>, sep: Seq<char>) -> Seq<char>
    decreases items.len(),
{
    if items.len() == 0 {
        Seq::<char>::empty()
    } else if items.len() == 1 {
        items[0]
    } else {
        joined(items.drop_last(), sep) + sep + items.last()
    }
}

/// A path's offsets as a comma-separated list.
pub open spec fn path_offsets_list(path: Seq<char>) -> Seq<char> {
    joined(path_offset_texts(split_on(path, seq!['+'])), ", "@)
}

/// The offset of `base` a header declares: the low 16 bits of the parsed
/// base address (0 when it does not parse).
pub open spec fn module_offset(base_address: Seq<char>) -> u64 {
    match base_address_of(base_address) {
        Ok(v) => (v % 0x10000) as u64,
        Err(_) => 0,
    }
}

/// The header's opening, up to the struct's opening brace.
#[verifier::opaque]
pub open spec fn header_text(class_name: Seq<char>, base_address: Seq<char>, offsets: Seq<char>) -> Seq<
    char,
> {
    let bo = hex_text(module_offset(base_address) as nat);
    "// Generated by Damned Memory Traversal Tool\n"@ + "// Base: "@ + base_address
        + " Offsets: "@ + offsets + "\n"@ + "// Base offset from module: "@ + bo + "\n\n"@
        + "#pragma once\n#include <cstdint>\n#include <vector>\n\n"@
        + "constexpr uintptr_t BASE_OFFSET = "@ + bo + ";\n\n"@
        + "// Struct layout (use with direct memory access)\n"@ + "struct "@ + class_name
        + " {\n"@
}

/// The text of one struct field placed after a field ending at `last`,
/// with `pads` padding arrays before it: a `char _padN[..]` array first
/// when the field's final offset lies beyond `last`.
#[verifier::opaque]
pub open spec fn field_text(r: TraversalResult, last: u64, pads: nat) -> Seq<char> {
    let off = final_offset(r.offset_path@);
    let pad = if off > last {
        "    char _pad"@ + dec_digits(pads) + "["@ + hex_text((off - last) as nat) + "];\n"@
    } else {
        Seq::<char>::empty()
    };
    pad + "    "@ + cpp_type_of(r.selected_type@) + " "@ + sanitized(r.label@, off) + "; // "@
        + hex_text(off as nat) + "\n"@
}

/// Where a field ends: its final offset plus its type's size, in the
/// 64-bit address space.
pub open spec fn field_end(r: TraversalResult) -> u64 {
    ((final_offset(r.offset_path@) + size_of_type(r.selected_type@)) % 0x1_0000_0000_0000_0000) as u64
}

/// The struct's fields for `rs`, with the end of the last field and the
/// number of padding arrays so far.
pub open spec fn layout(rs: Seq<TraversalResult>) -> (Seq<char>, u64, nat)
    decreases rs.len(),
{
    if rs.len() == 0 {
        (Seq::<char>::empty(), 0, 0)
    } else {
        let (text, last, pads) = layout(rs.drop_last());
        let r = rs.last();
        (text + field_text(r, last, pads), field_end(r), if final_offset(r.offset_path@) > last {
            pads + 1
        } else {
            pads
        })
    }
}

/// The fixed part of the reader class, from its first member to `public:`.
pub open spec fn reader_members() -> Seq<char> {
    "    uintptr_t moduleBase;\n    \n    template<typename T>\n    T Read(uintptr_t addr) {\n        T val{};\n        // ReadProcessMemory(hProcess, (LPCVOID)addr, &val, sizeof(T), nullptr);\n        return val;\n    }\n    \n    template<typename T>\n    void Write(uintptr_t addr, T val) {\n        // WriteProcessMemory(hProcess, (LPVOID)addr, &val, sizeof(T), nullptr);\n    }\n    \n    uintptr_t FollowChain(uintptr_t base, std::vector<int64_t> offsets) {\n        uintptr_t addr = base;\n        for (size_t i = 0; i < offsets.size() - 1; i++) {\n            addr = Read<uintptr_t>(addr + offsets[i]);\n            if (addr == 0) return 0;\n        }\n        return addr + offsets.back();\n    }\n    \npublic:\n"@
}

/// The text between the struct's fields and the accessors.
pub open spec fn middle_text(class_name: Seq<char>) -> Seq<char> {
    "};\n\n"@ + "// Pointer chain helper (use with ReadProcessMemory/WriteProcessMemory)\n"@
        + "class "@ + class_name + "Reader {\n"@ + reader_members() + "    "@ + class_name
        + "Reader(uintptr_t base) : moduleBase(base) {}\n"@ + "    \n"@
}

/// The getter and setter of one result.
#[verifier::opaque]
pub open spec fn accessor(r: TraversalResult) -> Seq<char> {
    let off = final_offset(r.offset_path@);
    let name = capitalized(sanitized(r.label@, off));
    let ty = cpp_type_of(r.selected_type@);
    let list = path_offsets_list(r.offset_path@);
    "    "@ + ty + " get"@ + name + "() {\n"@ + "        return Read<"@ + ty
        + ">(FollowChain(moduleBase + BASE_OFFSET, {"@ + list + "}));\n"@ + "    }\n"@
        + "    void set"@ + name + "("@ + ty + " val) {\n"@ + "        Write<"@ + ty
        + ">(FollowChain(moduleBase + BASE_OFFSET, {"@ + list + "}), val);\n"@ + "    }\n"@
        + "    \n"@
}

/// The accessors of `rs`, in order.
pub open spec fn accessors(rs: Seq<TraversalResult>) -> Seq<char>
    decreases rs.len(),
{
    if rs.len() == 0 {
        Seq::<char>::empty()
    } else {
        accessors(rs.drop_last()) + accessor(rs.last())
    }
}

/// The whole header for `rs`.
pub open spec fn cpp_header(
    rs: Seq<TraversalResult>,
    class_name: Seq<char>,
    base_address: Seq<char>,
    offsets: Seq<char>,
) -> Seq<char> {
    header_text(class_name, base_address, offsets) + layout(rs).0 + middle_text(class_name)
        + accessors(rs) + "};\n"@
}

/// The C++ type name for a type tag.
pub fn cpp_type_name(t: &str) -> (r: &'static str)
    ensures
        r@ == cpp_type_of(t@),
{
    let c = chars_of(t);
    let c = c.as_slice();
    if chars_equal(c, "i8") {
        "int8_t"
    } else if chars_equal(c, "i16") {
        "int16_t"
    } else if chars_equal(c, "i32") {
        "int32_t"
    } else if chars_equal(c, "i64") {
        "int64_t"
    } else if chars_equal(c, "u8") {
        "uint8_t"
    } else if chars_equal(c, "u16") {
        "uint16_t"
    } else if chars_equal(c, "u32") {
        "uint32_t"
    } else if chars_equal(c, "u64") {
        "uint64_t"
    } else if chars_equal(c, "f32") {
        "float"
    } else if chars_equal(c, "f64") {
        "double"
    } else {
        "int32_t"
    }
}

/// The size in bytes of the type a tag names.
pub fn type_size(t: &str) -> (r: u64)
    ensures
        r == size_of_type(t@),
{
    let c = chars_of(t);
    let c = c.as_slice();
    if chars_equal(c, "i8") || chars_equal(c, "u8") {
        1
    } else if chars_equal(c, "i16") || chars_equal(c, "u16") {
        2
    } else if chars_equal(c, "i32") || chars_equal(c, "u32") || chars_equal(c, "f32") {
        4
    } else if chars_equal(c, "i64") || chars_equal(c, "u64") || chars_equal(c, "f64") {
        8
    } else {
        4
    }
}

fn stripped_trailing(s: &[char], c: char) -> (r: Vec<char>)
    ensures
        r@ == strip_trailing(s@, c),
{
    let mut j: usize = s.len();
    assert(s@.subrange(0, j as int) =~= s@);
    while j > 0 && s[j - 1] == c
        invariant
            j <= s.len(),
            strip_trailing(s@, c) == strip_trailing(s@.subrange(0, j as int), c),
        decreases j,
    {
        assert(s@.subrange(0, j as int).drop_last() =~= s@.subrange(0, j - 1));
        j = j - 1;
    }
    crate::text::copy_range(s, 0, j)
}

/// A C++ field name for a result's label.
pub fn sanitize_name(label: &str, offset: u64) -> (r: String)
    ensures
        r@ == sanitized(label@, offset),
        r@.len() > 0,
        forall|i: int| 0 <= i < r@.len() ==> alphanumeric(#[trigger] r@[i]) || r@[i] == '_',
        !numeric(r@[0]),
{
    proof {
        crate::roundtrip::law_field_name_chars(label@, offset);
    }
    let cs = chars_of(label);
    if cs.len() == 0 {
        let mut r = string_from("field_");
        push_hex(&mut r, offset);
        return r;
    }
    let mut s: Vec<char> = Vec::new();
    let mut i: usize = 0;
    while i < cs.len()
        invariant
            i <= cs.len(),
            cs@ == label@,
            s@ == cs@.take(i as int).map_values(|c: char| name_char(c)),
        decreases cs.len() - i,
    {
        let c = cs[i];
        let k = if char_is_alphanumeric(c) || c == '_' {
            c
        } else {
            '_'
        };
        s.push(k);
        assert(cs@.take(i + 1).map_values(|c: char| name_char(c)) =~= cs@.take(i as int).map_values(
            |c: char| name_char(c),
        ).push(k));
        i = i + 1;
    }
    assert(cs@.take(cs.len() as int) =~= cs@);
    if char_is_numeric(s[0]) {
        let mut r = string_from("_");
        push_chars(&mut r, s.as_slice());
        r
    } else {
        crate::text::string_of(s.as_slice())
    }
}

/// `s` with its first character upper-cased.
pub fn capitalize(s: &str) -> (r: String)
    ensures
        r@ == capitalized(s@),
{
    let cs = chars_of(s);
    if cs.len() == 0 {
        return String::new();
    }
    let mut r = char_to_uppercase(cs[0]);
    let rest = crate::text::copy_range(cs.as_slice(), 1, cs.len());
    assert(rest@ =~= s@.drop_first());
    push_chars(&mut r, rest.as_slice());
    r
}

/// The last offset of a path such as `[[base]+0x40]+0x20]+0x100`.
pub fn extract_final_offset(path: &str) -> (r: u64)
    ensures
        r == final_offset(path@),
{
    let cs = chars_of(path);
    let plus = vec!['+'];
    assert(plus@ =~= seq!['+']);
    let parts = split_chars(cs.as_slice(), plus.as_slice());
    proof {
        crate::text::lemma_split_nonempty(path@, seq!['+']);
    }
    let last = parts.len() - 1;
    assert(views(parts@).last() == parts@[last as int]@);
    let t = trimmed(parts[last].as_slice());
    let cleaned = stripped_trailing(t.as_slice(), ']');
    match base_address_chars(cleaned.as_slice()) {
        Ok(v) => v,
        Err(_) => 0,
    }
}

/// A path's offsets as a comma-separated list of `0x..` values.
pub fn extract_offsets_from_path(path: &str) -> (r: String)
    ensures
        r@ == path_offsets_list(path@),
{
    let cs = chars_of(path);
    let plus = vec!['+'];
    assert(plus@ =~= seq!['+']);
    let parts = split_chars(cs.as_slice(), plus.as_slice());
    let ghost ps = views(parts@);
    let mut out = String::new();
    let mut count: usize = 0;
    let mut i: usize = 0;
    assert(ps.take(0) =~= Seq::<Seq<char>>::empty());
    while i < parts.len()
        invariant
            i <= parts.len(),
            ps == views(parts@),
            count <= i,
            count as int == path_offset_texts(ps.take(i as int)).len(),
            out@ == joined(path_offset_texts(ps.take(i as int)), ", "@),
        decreases parts.len() - i,
    {
        let ghost prev = ps.take(i as int);
        assert(ps.take(i + 1).drop_last() =~= prev);
        assert(ps.take(i + 1).last() == parts@[i as int]@);
        let t = trimmed(parts[i].as_slice());
        let l = stripped_leading(t.as_slice(), '[');
        let c = stripped_trailing(l.as_slice(), ']');
        let is_base = c.len() == 4 && (c[0] == 'b' || c[0] == 'B') && (c[1] == 'a' || c[1]
            == 'A') && (c[2] == 's' || c[2] == 'S') && (c[3] == 'e' || c[3] == 'E');
        if !is_base && c.len() > 0 {
            match base_address_chars(c.as_slice()) {
                Ok(v) => {
                    let ghost items = path_offset_texts(prev);
                    if count > 0 {
                        push_str(&mut out, ", ");
                    }
                    push_hex(&mut out, v);
                    proof {
                        let next = items.push(hex_text(v as nat));
                        assert(next.drop_last() =~= items);
                        if count == 0 {
                            assert(out@ =~= joined(next, ", "@));
                        } else {
                            assert(out@ =~= joined(next, ", "@));
                        }
                    }
                    count = count + 1;
                },
                Err(_) => {},
            }
        }
        i = i + 1;
    }
    assert(ps.take(parts.len() as int) =~= ps);
    out
}

fn reader_members_str() -> (r: &'static str)
    ensures
        r@ == reader_members(),
{
    "    uintptr_t moduleBase;\n    \n    template<typename T>\n    T Read(uintptr_t addr) {\n        T val{};\n        // ReadProcessMemory(hProcess, (LPCVOID)addr, &val, sizeof(T), nullptr);\n        return val;\n    }\n    \n    template<typename T>\n    void Write(uintptr_t addr, T val) {\n        // WriteProcessMemory(hProcess, (LPVOID)addr, &val, sizeof(T), nullptr);\n    }\n    \n    uintptr_t FollowChain(uintptr_t base, std::vector<int64_t> offsets) {\n        uintptr_t addr = base;\n        for (size_t i = 0; i < offsets.size() - 1; i++) {\n            addr = Read<uintptr_t>(addr + offsets[i]);\n            if (addr == 0) return 0;\n        }\n        return addr + offsets.back();\n    }\n    \npublic:\n"
}

fn push_header(out: &mut String, class_name: &str, base_address: &str, offsets: &str)
    ensures
        final(out)@ == old(out)@ + header_text(class_name@, base_address@, offsets@),
{
    let base_offset = match crate::parse::parse_base_address(base_address) {
        Ok(v) => v % 0x10000,
        Err(_) => 0,
    };
    assert(base_offset == module_offset(base_address@));
    push_str(out, "// Generated by Damned Memory Traversal Tool\n");
    push_str(out, "// Base: ");
    push_str(out, base_address);
    push_str(out, " Offsets: ");
    push_str(out, offsets);
    push_str(out, "\n");
    push_str(out, "// Base offset from module: ");
    push_hex(out, base_offset);
    push_str(out, "\n\n");
    push_str(out, "#pragma once\n#include <cstdint>\n#include <vector>\n\n");
    push_str(out, "constexpr uintptr_t BASE_OFFSET = ");
    push_hex(out, base_offset);
    push_str(out, ";\n\n");
    push_str(out, "// Struct layout (use with direct memory access)\n");
    push_str(out, "struct ");
    push_str(out, class_name);
    push_str(out, " {\n");
    assert(final(out)@ =~= old(out)@ + header_text(class_name@, base_address@, offsets@)) by {
        reveal(header_text);
    }
}

fn push_field(out: &mut String, r: &TraversalResult, last_offset: u64, pad_count: u64) -> (res: (
    u64,
    u64,
))
    requires
        pad_count < u64::MAX,
    ensures
        final(out)@ == old(out)@ + field_text(*r, last_offset, pad_count as nat),
        res.0 == field_end(*r),
        res.1 == if final_offset(r.offset_path@) > last_offset {
            pad_count + 1
        } else {
            pad_count as int
        },
{
    let final_offset = extract_final_offset(r.offset_path.as_str());
    let mut pads = pad_count;
    if final_offset > last_offset {
        let pad_size = final_offset - last_offset;
        push_str(out, "    char _pad");
        push_dec(out, pad_count);
        push_str(out, "[");
        push_hex(out, pad_size);
        push_str(out, "];\n");
        pads = pad_count + 1;
    }
    let var_name = sanitize_name(r.label.as_str(), final_offset);
    let cpp_type = cpp_type_name(r.selected_type.as_str());
    push_str(out, "    ");
    push_str(out, cpp_type);
    push_str(out, " ");
    push_str(out, var_name.as_str());
    push_str(out, "; // ");
    push_hex(out, final_offset);
    push_str(out, "\n");
    assert(final(out)@ =~= old(out)@ + field_text(*r, last_offset, pad_count as nat)) by {
        reveal(field_text);
    }
    (final_offset.wrapping_add(type_size(r.selected_type.as_str())), pads)
}

/// The capitalised field name of a result, as its accessors use it.
fn accessor_name(r: &TraversalResult) -> (name: String)
    ensures
        name@ == capitalized(sanitized(r.label@, final_offset(r.offset_path@))),
{
    let off = extract_final_offset(r.offset_path.as_str());
    let var = sanitize_name(r.label.as_str(), off);
    capitalize(var.as_str())
}

fn push_accessor(out: &mut String, r: &TraversalResult)
    ensures
        final(out)@ == old(out)@ + accessor(*r),
{
    let name = accessor_name(r);
    let ty = cpp_type_name(r.selected_type.as_str());
    let list = extract_offsets_from_path(r.offset_path.as_str());
    push_str(out, "    ");
    push_str(out, ty);
    push_str(out, " get");
    push_str(out, name.as_str());
    push_str(out, "() {\n");
    push_str(out, "        return Read<");
    push_str(out, ty);
    push_str(out, ">(FollowChain(moduleBase + BASE_OFFSET, {");
    push_str(out, list.as_str());
    push_str(out, "}));\n");
    push_str(out, "    }\n");
    push_str(out, "    void set");
    push_str(out, name.as_str());
    push_str(out, "(");
    push_str(out, ty);
    push_str(out, " val) {\n");
    push_str(out, "        Write<");
    push_str(out, ty);
    push_str(out, ">(FollowChain(moduleBase + BASE_OFFSET, {");
    push_str(out, list.as_str());
    push_str(out, "}), val);\n");
    push_str(out, "    }\n");
    push_str(out, "    \n");
    assert(final(out)@ =~= old(out)@ + accessor(*r)) by {
        reveal(accessor);
    }
}

/// The C++ header for `results`: a struct `class_name` with one field per
/// result at its final offset, padded between fields, and a reader class
/// `class_nameReader` with a getter and a setter per result that follow
/// the result's offset path from the module base.
#[verifier::spinoff_prover]
#[verifier::rlimit(40)]
pub fn export_to_cpp(results: &[TraversalResult], class_name: &str, base_address: &str, offsets: &str) -> (r: String)
    ensures
        r@ == cpp_header(results@, class_name@, base_address@, offsets@),
{
    let mut out = String::new();
    push_header(&mut out, class_name, base_address, offsets);
    let ghost head = out@;
    let mut last_offset: u64 = 0;
    let mut pad_count: u64 = 0;
    let mut i: usize = 0;
    assert(results@.take(0) =~= Seq::<TraversalResult>::empty());
    assert(head + layout(results@.take(0)).0 =~= head);
    while i < results.len()
        invariant
            i <= results.len(),
            pad_count <= i,
            head == header_text(class_name@, base_address@, offsets@),
            out@ == head + layout(results@.take(i as int)).0,
            last_offset == layout(results@.take(i as int)).1,
            pad_count as nat == layout(results@.take(i as int)).2,
        decreases results.len() - i,
    {
        let ghost prev = results@.take(i as int);
        assert(results@.take(i + 1).drop_last() =~= prev);
        assert(results@.take(i + 1).last() == results@[i as int]);
        let (end, pads) = push_field(&mut out, &results[i], last_offset, pad_count);
        last_offset = end;
        pad_count = pads;
        assert(out@ =~= head + layout(results@.take(i + 1)).0);
        i = i + 1;
    }
    assert(results@.take(results.len() as int) =~= results@);
    push_str(&mut out, "};\n\n");
    push_str(&mut out, "// Pointer chain helper (use with ReadProcessMemory/WriteProcessMemory)\n");
    push_str(&mut out, "class ");
    push_str(&mut out, class_name);
    push_str(&mut out, "Reader {\n");
    push_str(&mut out, reader_members_str());
    push_str(&mut out, "    ");
    push_str(&mut out, class_name);
    push_str(&mut out, "Reader(uintptr_t base) : moduleBase(base) {}\n");
    push_str(&mut out, "    \n");
    let ghost mid = out@;
    assert(mid =~= head + layout(results@).0 + middle_text(class_name@));
    let mut j: usize = 0;
    assert(mid + accessors(results@.take(0)) =~= mid);
    while j < results.len()
        invariant
            j <= results.len(),
            out@ == mid + accessors(results@.take(j as int)),
        decreases results.len() - j,
    {
        assert(results@.take(j + 1).drop_last() =~= results@.take(j as int));
        assert(results@.take(j + 1).last() == results@[j as int]);
        push_accessor(&mut out, &results[j]);
        assert(out@ =~= mid + accessors(results@.take(j + 1)));
        j = j + 1;
    }
    push_str(&mut out, "};\n");
    assert(out@ =~= cpp_header(results@, class_name@, base_address@, offsets@));
    out
}

} // verus!
