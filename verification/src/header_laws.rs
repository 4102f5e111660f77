//! What the exported C++ header holds: the module offset of the base
//! address, fields laid out by their offsets, and one pair of accessors per
//! result, in order.

use vstd::prelude::*;

use crate::export::{
    accessor, accessors, cpp_header, cpp_type_of, field_end, field_text, final_offset, header_text,
    layout, middle_text, sanitized, size_of_type,
};
use crate::format::{dec_digits, hex_text};
use crate::parse::base_address_of;
use crate::process::occurs_in;
use crate::types::TraversalResult;

verus! {

/// The module offset a header declares: the low 16 bits of the parsed base
/// address, or 0 when it does not parse.
pub open spec fn declared_offset(base_address: Seq<char>) -> nat {
    match base_address_of(base_address) {
        Ok(v) => (v % 0x10000) as nat,
        Err(_) => 0,
    }
}

proof fn lemma_occurs_at(a: Seq<char>, n: Seq<char>, b: Seq<char>)
    ensures
        occurs_in(n, a + n + b),
{
    let h = a + n + b;
    assert(h.subrange(a.len() as int, (a.len() + n.len()) as int) =~= n);
}

proof fn lemma_occurs_prefix(n: Seq<char>, x: Seq<char>, z: Seq<char>)
    requires
        occurs_in(n, x),
        x.len() <= z.len(),
        z.take(x.len() as int) == x,
    ensures
        occurs_in(n, z),
{
    let i = choose|i: int| 0 <= i <= x.len() - n.len() && #[trigger] x.subrange(i, i + n.len()) == n;
    assert(z.subrange(i, i + n.len()) =~= x.subrange(i, i + n.len()));
}

/// `x` is a prefix of `x + y`.
proof fn lemma_prefix_of_add(x: Seq<char>, y: Seq<char>)
    ensures
        (x + y).take(x.len() as int) == x,
{
    assert((x + y).take(x.len() as int) =~= x);
}

/// The header names the module offset of the base address (its low 16
/// bits, 0 when it does not parse) in its comment and as `BASE_OFFSET`.
pub proof fn law_header_base_offset(
    rs: Seq<TraversalResult>,
    class_name: Seq<char>,
    base_address: Seq<char>,
    offsets: Seq<char>,
)
    ensures
        occurs_in(
            "// Base offset from module: "@ + hex_text(declared_offset(base_address)) + "\n"@,
            cpp_header(rs, class_name, base_address, offsets),
        ),
        occurs_in(
            "constexpr uintptr_t BASE_OFFSET = "@ + hex_text(declared_offset(base_address)) + ";\n"@,
            cpp_header(rs, class_name, base_address, offsets),
        ),
{
    let bo = hex_text(declared_offset(base_address));
    let h0 = "// Generated by Damned Memory Traversal Tool\n"@ + "// Base: "@ + base_address
        + " Offsets: "@ + offsets + "\n"@;
    let h1 = h0 + "// Base offset from module: "@ + bo + "\n\n"@;
    let h2 = h1 + "#pragma once\n#include <cstdint>\n#include <vector>\n\n"@ + "constexpr uintptr_t BASE_OFFSET = "@
        + bo + ";\n\n"@;
    let h3 = h2 + "// Struct layout (use with direct memory access)\n"@ + "struct "@ + class_name + " {\n"@;
    assert(header_text(class_name, base_address, offsets) == h3) by {
        reveal(header_text);
    }
    let n1 = "// Base offset from module: "@ + bo + "\n"@;
    let n2 = "constexpr uintptr_t BASE_OFFSET = "@ + bo + ";\n"@;
    reveal_strlit("\n\n");
    reveal_strlit("\n");
    reveal_strlit(";\n\n");
    reveal_strlit(";\n");
    assert(h1.subrange(h0.len() as int, (h0.len() + n1.len()) as int) =~= n1);
    let p2 = h1 + "#pragma once\n#include <cstdint>\n#include <vector>\n\n"@;
    assert(h2.subrange(p2.len() as int, (p2.len() + n2.len()) as int) =~= n2);
    let t = cpp_header(rs, class_name, base_address, offsets);
    let tail = layout(rs).0 + middle_text(class_name) + accessors(rs) + "};\n"@;
    assert(t =~= h3 + tail);
    lemma_prefix_of_add(h3, tail);
    let u = "// Struct layout (use with direct memory access)\n"@ + "struct "@ + class_name + " {\n"@;
    assert(h3 =~= h2 + u);
    lemma_prefix_of_add(h2, u);
    assert(t.take(h2.len() as int) =~= h2);
    let v = "#pragma once\n#include <cstdint>\n#include <vector>\n\n"@ + "constexpr uintptr_t BASE_OFFSET = "@
        + bo + ";\n\n"@;
    assert(h2 =~= h1 + v);
    assert(t.take(h1.len() as int) =~= h1);
    lemma_occurs_prefix(n1, h1, t);
    lemma_occurs_prefix(n2, h2, t);
}

/// The accessors of `a + b` are those of `a`, then those of `b`.
proof fn lemma_accessors_append(a: Seq<TraversalResult>, b: Seq<TraversalResult>)
    ensures
        accessors(a + b) == accessors(a) + accessors(b),
    decreases b.len(),
{
    if b.len() == 0 {
        assert(a + b =~= a);
        assert(accessors(a) + Seq::<char>::empty() =~= accessors(a));
    } else {
        lemma_accessors_append(a, b.drop_last());
        assert((a + b).drop_last() =~= a + b.drop_last());
        assert((a + b).last() == b.last());
    }
}

/// Each result's getter and setter stand in the header, in the results'
/// order: the accessors of the first `i` results, then those of result
/// `i`, then the rest.
pub proof fn law_header_accessors_in_order(
    rs: Seq<TraversalResult>,
    class_name: Seq<char>,
    base_address: Seq<char>,
    offsets: Seq<char>,
    i: int,
)
    requires
        0 <= i < rs.len(),
    ensures
        accessors(rs) == accessors(rs.take(i)) + accessor(rs[i]) + accessors(rs.skip(i + 1)),
        occurs_in(accessor(rs[i]), cpp_header(rs, class_name, base_address, offsets)),
{
    lemma_accessors_append(rs.take(i + 1), rs.skip(i + 1));
    assert(rs.take(i + 1) + rs.skip(i + 1) =~= rs);
    assert(rs.take(i + 1).drop_last() =~= rs.take(i));
    assert(rs.take(i + 1).last() == rs[i]);
    let a = header_text(class_name, base_address, offsets) + layout(rs).0 + middle_text(class_name)
        + accessors(rs.take(i));
    let b = accessors(rs.skip(i + 1)) + "};\n"@;
    assert(cpp_header(rs, class_name, base_address, offsets) =~= a + accessor(rs[i]) + b);
    lemma_occurs_at(a, accessor(rs[i]), b);
}

/// The padding placed before `r` when the previous field ends at `last`.
pub open spec fn pad_size(r: TraversalResult, last: u64) -> int {
    if final_offset(r.offset_path@) > last {
        final_offset(r.offset_path@) - last
    } else {
        0
    }
}

/// The sizes of the padding arrays and the fields of `rs`, added up.
pub open spec fn laid_out_size(rs: Seq<TraversalResult>) -> int
    decreases rs.len(),
{
    if rs.len() == 0 {
        0
    } else {
        laid_out_size(rs.drop_last()) + pad_size(rs.last(), layout(rs.drop_last()).1)
            + size_of_type(rs.last().selected_type@)
    }
}

/// Where result `r`'s field ends, counted without wrapping.
pub open spec fn end_of(r: TraversalResult) -> int {
    final_offset(r.offset_path@) + size_of_type(r.selected_type@)
}

/// The results' fields come in offset order, none overlapping the next,
/// and all end inside the 64-bit address space.
pub open spec fn fields_in_order(rs: Seq<TraversalResult>) -> bool {
    &&& forall|i: int| 0 <= i < rs.len() ==> end_of(#[trigger] rs[i]) < 0x1_0000_0000_0000_0000
    &&& forall|i: int|
        0 <= i < rs.len() - 1 ==> end_of(#[trigger] rs[i]) <= final_offset(rs[i + 1].offset_path@)
}

proof fn lemma_layout_prefix(rs: Seq<TraversalResult>, k: int)
    requires
        fields_in_order(rs),
        0 <= k <= rs.len(),
    ensures
        laid_out_size(rs.take(k)) == layout(rs.take(k)).1 as int,
        k > 0 ==> laid_out_size(rs.take(k)) == end_of(rs[k - 1]),
        k < rs.len() ==> laid_out_size(rs.take(k)) + pad_size(rs[k], layout(rs.take(k)).1)
            == final_offset(rs[k].offset_path@),
    decreases k,
{
    if k > 0 {
        lemma_layout_prefix(rs, k - 1);
        let p = rs.take(k);
        assert(p.drop_last() =~= rs.take(k - 1));
        assert(p.last() == rs[k - 1]);
        assert(end_of(rs[k - 1]) < 0x1_0000_0000_0000_0000);
        assert(field_end(rs[k - 1]) as int == end_of(rs[k - 1]));
        if k < rs.len() {
            assert(end_of(rs[k - 1]) <= final_offset(rs[k].offset_path@));
        }
    } else {
        assert(rs.take(0) =~= Seq::<TraversalResult>::empty());
    }
}

/// With the fields in offset order and not overlapping, the padding and
/// field sizes before each field add up to its offset, and all of them
/// add up to where the last field ends.
pub proof fn law_layout_sizes(rs: Seq<TraversalResult>, i: int)
    requires
        fields_in_order(rs),
        0 <= i < rs.len(),
    ensures
        laid_out_size(rs.take(i)) + pad_size(rs[i], layout(rs.take(i)).1) == final_offset(
            rs[i].offset_path@,
        ),
        laid_out_size(rs) == end_of(rs.last()),
        layout(rs).1 as int == end_of(rs.last()),
{
    lemma_layout_prefix(rs, i);
    lemma_layout_prefix(rs, rs.len() as int);
    assert(rs.take(rs.len() as int) =~= rs);
}


proof fn lemma_layout_text_prefix(rs: Seq<TraversalResult>, k: int)
    requires
        0 <= k <= rs.len(),
    ensures
        layout(rs.take(k)).0.len() <= layout(rs).0.len(),
        layout(rs).0.take(layout(rs.take(k)).0.len() as int) == layout(rs.take(k)).0,
    decreases rs.len(),
{
    if k == rs.len() {
        assert(rs.take(k) =~= rs);
        assert(layout(rs).0.take(layout(rs).0.len() as int) =~= layout(rs).0);
    } else {
        let dl = rs.drop_last();
        lemma_layout_text_prefix(dl, k);
        assert(dl.take(k) =~= rs.take(k));
        let p = layout(rs.take(k)).0;
        assert(layout(rs).0.take(p.len() as int) =~= layout(dl).0.take(p.len() as int));
    }
}

/// The struct's fields stand in the results' order: field `i`'s text,
/// after the fields before it, is a `char _padN[size]` array when its
/// offset lies beyond where the previous field ends (`N` counting the
/// arrays so far), then the field's type, name and offset.
pub proof fn law_layout_fields_in_order(rs: Seq<TraversalResult>, i: int)
    requires
        0 <= i < rs.len(),
    ensures
        ({
            let (before, last, pads) = layout(rs.take(i));
            let r = rs[i];
            let off = final_offset(r.offset_path@);
            let text = field_text(r, last, pads);
            &&& layout(rs).0.take((before.len() + text.len()) as int) == before + text
            &&& text == (if off > last {
                "    char _pad"@ + dec_digits(pads) + "["@ + hex_text((off - last) as nat) + "];\n"@
            } else {
                Seq::<char>::empty()
            }) + "    "@ + cpp_type_of(r.selected_type@) + " "@ + sanitized(r.label@, off) + "; // "@
                + hex_text(off as nat) + "\n"@
        }),
{
    reveal(field_text);
    lemma_layout_text_prefix(rs, i + 1);
    assert(rs.take(i + 1).drop_last() =~= rs.take(i));
    assert(rs.take(i + 1).last() == rs[i]);
}


/// Where the field before result `i` ends (0 before the first).
pub open spec fn end_before(rs: Seq<TraversalResult>, i: int) -> u64 {
    if i <= 0 {
        0
    } else {
        field_end(rs[i - 1])
    }
}

/// How many padding arrays come before result `i`'s field: one for each
/// earlier field whose offset lies beyond where the field before it ends.
pub open spec fn pads_before(rs: Seq<TraversalResult>, i: int) -> nat
    decreases i,
{
    if i <= 0 {
        0
    } else {
        pads_before(rs, i - 1) + if final_offset(rs[i - 1].offset_path@) > end_before(rs, i - 1) {
            1nat
        } else {
            0nat
        }
    }
}

/// The texts joined in order.
pub open spec fn concat_all(parts: Seq<Seq<char>>) -> Seq<char>
    decreases parts.len(),
{
    if parts.len() == 0 {
        Seq::<char>::empty()
    } else {
        concat_all(parts.drop_last()) + parts.last()
    }
}

/// The text of each result's field, in order, each placed after the field
/// before it.
pub open spec fn field_texts(rs: Seq<TraversalResult>) -> Seq<Seq<char>> {
    Seq::new(rs.len(), |i: int| field_text(rs[i], end_before(rs, i), pads_before(rs, i)))
}

proof fn lemma_layout_explicit(rs: Seq<TraversalResult>, k: int)
    requires
        0 <= k <= rs.len(),
    ensures
        layout(rs.take(k)).1 == end_before(rs, k),
        layout(rs.take(k)).2 == pads_before(rs, k),
        layout(rs.take(k)).0 == concat_all(field_texts(rs).take(k)),
    decreases k,
{
    if k == 0 {
        assert(rs.take(0) =~= Seq::<TraversalResult>::empty());
        assert(field_texts(rs).take(0) =~= Seq::<Seq<char>>::empty());
    } else {
        lemma_layout_explicit(rs, k - 1);
        let p = rs.take(k);
        assert(p.drop_last() =~= rs.take(k - 1));
        assert(p.last() == rs[k - 1]);
        assert(field_texts(rs).take(k).drop_last() =~= field_texts(rs).take(k - 1));
        assert(field_texts(rs).take(k).last() == field_texts(rs)[k - 1]);
    }
}

/// The struct body, between `struct NAME {` and `};`, is the fields' texts
/// one after the other: result `i`'s field text placed after the field
/// before it (ending at `end_before`), with `pads_before` padding arrays
/// already written.
pub proof fn law_struct_body(
    rs: Seq<TraversalResult>,
    class_name: Seq<char>,
    base_address: Seq<char>,
    offsets: Seq<char>,
)
    ensures
        cpp_header(rs, class_name, base_address, offsets) == header_text(
            class_name,
            base_address,
            offsets,
        ) + concat_all(field_texts(rs)) + middle_text(class_name) + accessors(rs) + "};\n"@,
        header_text(class_name, base_address, offsets).len() >= class_name.len() + 10,
        header_text(class_name, base_address, offsets).skip(
            header_text(class_name, base_address, offsets).len() - class_name.len() - 10,
        ) == "struct "@ + class_name + " {\n"@,
        middle_text(class_name).take(3) == "};\n"@,
{
    lemma_layout_explicit(rs, rs.len() as int);
    assert(rs.take(rs.len() as int) =~= rs);
    assert(field_texts(rs).take(rs.len() as int) =~= field_texts(rs));
    reveal(header_text);
    reveal_strlit("struct ");
    reveal_strlit(" {\n");
    reveal_strlit("};\n");
    reveal_strlit("};\n\n");
    let h = header_text(class_name, base_address, offsets);
    let tail = "struct "@ + class_name + " {\n"@;
    assert(h.skip(h.len() - class_name.len() - 10) =~= tail);
    assert(middle_text(class_name).take(3) =~= "};\n"@);
}

} // verus!
