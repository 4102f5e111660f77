use std::collections::HashMap;

use memlib::{
    export_to_cpp, extract_offsets_from_path, le_bytes, offset_path, parse_base_address,
    parse_hex_or_dec, parse_offsets, sanitize_name, traversal_result_at, ChainStep, PointerChain,
    TraversalResult,
};

#[test]
fn decimal_and_hex_lists_read_back() {
    let v: Vec<i64> = vec![-16, 32, 0, i64::MAX, -i64::MAX];
    let dec: Vec<String> = v.iter().map(|o| o.to_string()).collect();
    assert_eq!(parse_offsets(&dec.join(",")).unwrap(), v);
    let w: Vec<i64> = vec![0x40, 0, 0x7FFF_FFFF_FFFF_FFFF, 12];
    let hex: Vec<String> = w.iter().map(|o| format!("{:#X}", o)).collect();
    assert_eq!(parse_offsets(&hex.join("+")).unwrap(), w);
    assert_eq!(parse_offsets("").unwrap(), Vec::<i64>::new());
}

#[test]
fn lower_case_hex_base_addresses_read_back() {
    for a in [0u64, 0xabc, 0x7ff6_a1b2_c3d0, u64::MAX] {
        assert_eq!(parse_base_address(&format!("{:#x}", a)).unwrap(), a);
        assert_eq!(parse_base_address(&format!("{:#X}", a)).unwrap(), a);
        assert_eq!(parse_base_address(&format!("{:X}", a)).unwrap(), a);
    }
}

#[test]
fn negated_offsets() {
    for s in ["42", "0x10", "0x-5", "+7", "9223372036854775807"] {
        let v = parse_hex_or_dec(s).unwrap();
        assert_eq!(parse_hex_or_dec(&format!("-{}", s)).unwrap(), -v);
    }
}

#[test]
fn widths_of_one_reading_agree() {
    let r = traversal_result_at(0x10, Some(&le_bytes(0xFEDC_BA98_7654_3210, 8)));
    assert_eq!(r.value_i8 as u8, r.value_u8);
    assert_eq!(r.value_i16 as u16, r.value_u16);
    assert_eq!(r.value_i32 as u32, r.value_u32);
    assert_eq!(r.value_i64 as u64, r.value_u64);
    assert_eq!(r.value_u16 as u8, r.value_u8);
    assert_eq!(r.value_u32 as u16, r.value_u16);
    assert_eq!(r.value_u64 as u32, r.value_u32);
    assert_eq!((r.value_u8, r.value_i8), (0x10, 0x10));
    assert_eq!(r.value_i64, 0xFEDC_BA98_7654_3210u64 as i64);
}

fn follow(mem: &HashMap<u64, u64>, base: u64, offsets: &[i64]) -> Option<u64> {
    let (mut chain, mut step) = PointerChain::start(base, offsets.to_vec());
    loop {
        match step {
            ChainStep::Read(a) => step = chain.resume(mem.get(&a).copied()),
            ChainStep::Done(r) => return r,
        }
    }
}

#[test]
fn extending_a_chain_reads_once_more() {
    let mut mem = HashMap::new();
    mem.insert(0x1000, 0x2000);
    mem.insert(0x2040, 0x3000);
    mem.insert(0x3010, 0x4000);
    let short = follow(&mem, 0x1000, &[0x40, 0x10]);
    assert_eq!(short, Some(0x3010));
    let long = follow(&mem, 0x1000, &[0x40, 0x10, -8]);
    assert_eq!(long, short.and_then(|a| mem.get(&a).copied()).map(|p| p.wrapping_add_signed(-8)));
    assert_eq!(follow(&mem, 0x1000, &[0x40, 0x10, 0x8, 0x0]), None);
}

#[test]
fn field_names_are_stable() {
    for label in ["9 lives!", "", "_x", "hp", "ä-ö"] {
        let once = sanitize_name(label, 0x20);
        assert_eq!(sanitize_name(&once, 0x99), once);
        assert!(once.chars().all(|c| c.is_alphanumeric() || c == '_'));
        assert!(!once.chars().next().unwrap().is_numeric());
    }
}

#[test]
fn offsets_listed_from_a_scan_path() {
    let v: Vec<i64> = vec![0x40, -16, 0];
    let expected: Vec<String> = v.iter().map(|o| format!("{:#X}", *o as u64)).collect();
    assert_eq!(extract_offsets_from_path(&offset_path(&v)), expected.join(", "));
    assert_eq!(extract_offsets_from_path(&offset_path(&[])), "");
}

fn result(label: &str, path: &str, ty: &str) -> TraversalResult {
    let mut r = TraversalResult::default();
    r.label = label.to_string();
    r.offset_path = path.to_string();
    r.selected_type = ty.to_string();
    r
}

#[test]
fn header_base_offset_and_accessors() {
    let out = export_to_cpp(&[], "X", "not an address", "");
    assert!(out.contains("// Base offset from module: 0x0\n"));
    assert!(out.contains("constexpr uintptr_t BASE_OFFSET = 0x0;\n"));
    let results = vec![result("a", "[[base]+0x8]+0x0]", "i32"), result("b", "[[base]+0x8]+0x4]", "u64")];
    let out = export_to_cpp(&results, "S", "0x7FF6ABCD1234", "");
    assert!(out.contains("constexpr uintptr_t BASE_OFFSET = 0x1234;\n"));
    assert!(out.contains("    int32_t a; // 0x0\n    uint64_t b; // 0x4\n"));
    let ga = out.find("    int32_t getA() {").unwrap();
    let gb = out.find("    uint64_t getB() {").unwrap();
    assert!(ga < gb);
    assert_eq!(out.matches("FollowChain(moduleBase").count(), 2 * results.len());
}
