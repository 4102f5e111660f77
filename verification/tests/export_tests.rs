use memlib::{
    capitalize, cpp_type_name, export_to_cpp, extract_final_offset, extract_offsets_from_path,
    sanitize_name, type_size, TraversalResult,
};

#[test]
fn type_names_and_sizes() {
    assert_eq!(cpp_type_name("u16"), "uint16_t");
    assert_eq!(cpp_type_name("f64"), "double");
    assert_eq!(cpp_type_name("bogus"), "int32_t");
    assert_eq!(type_size("i8"), 1);
    assert_eq!(type_size("u16"), 2);
    assert_eq!(type_size("f32"), 4);
    assert_eq!(type_size("u64"), 8);
    assert_eq!(type_size("bogus"), 4);
}

#[test]
fn field_names() {
    assert_eq!(sanitize_name("", 0x20), "field_0x20");
    assert_eq!(sanitize_name("max hp!", 0), "max_hp_");
    assert_eq!(sanitize_name("1st", 0), "_1st");
    assert_eq!(sanitize_name("gold_coins", 0), "gold_coins");
    assert_eq!(capitalize("health"), "Health");
    assert_eq!(capitalize(""), "");
    assert_eq!(capitalize("ßx"), "SSx");
}

#[test]
fn offsets_of_a_path() {
    assert_eq!(extract_final_offset("[[base]+0x40]+0x20]+0x100"), 0x100);
    assert_eq!(extract_final_offset("[[base]+0x40]+0x20]"), 0x20);
    assert_eq!(extract_final_offset("nothing"), 0);
    assert_eq!(extract_offsets_from_path("[[base]+0x40]+0x20]+0x100"), "0x40, 0x20, 0x100");
    assert_eq!(extract_offsets_from_path("[[BASE]+junk]+10]"), "0x10");
    assert_eq!(extract_offsets_from_path(""), "");
}

fn result(label: &str, path: &str, ty: &str) -> TraversalResult {
    let mut r = TraversalResult::default();
    r.label = label.to_string();
    r.offset_path = path.to_string();
    r.selected_type = ty.to_string();
    r
}

#[test]
fn header_layout_and_accessors() {
    let results = vec![
        result("health", "[[base]+0x40]+0x4]", "i32"),
        result("", "[[base]+0x40]+0x8]", "i64"),
        result("level", "[[base]+0x40]+0x14]", "u8"),
    ];
    let out = export_to_cpp(&results, "Stats", "0x7FF612345678", "0x40+0x0");
    assert!(out.starts_with("// Generated by Damned Memory Traversal Tool\n// Base: 0x7FF612345678 Offsets: 0x40+0x0\n// Base offset from module: 0x5678\n\n"));
    assert!(out.contains("constexpr uintptr_t BASE_OFFSET = 0x5678;\n\n"));
    assert!(out.contains("struct Stats {\n    char _pad0[0x4];\n    int32_t health; // 0x4\n    int64_t field_0x8; // 0x8\n    char _pad1[0x4];\n    uint8_t level; // 0x14\n};\n\n"));
    assert!(out.contains("class StatsReader {\n"));
    assert!(out.contains("    StatsReader(uintptr_t base) : moduleBase(base) {}\n"));
    assert!(out.contains("    int32_t getHealth() {\n        return Read<int32_t>(FollowChain(moduleBase + BASE_OFFSET, {0x40, 0x4}));\n    }\n"));
    assert!(out.contains("    void setField_0x8(int64_t val) {\n        Write<int64_t>(FollowChain(moduleBase + BASE_OFFSET, {0x40, 0x8}), val);\n    }\n"));
    assert!(out.ends_with("    \n};\n"));
}

#[test]
fn header_for_no_results() {
    let out = export_to_cpp(&[], "Empty", "zz", "");
    assert!(out.contains("// Base offset from module: 0x0\n"));
    assert!(out.contains("struct Empty {\n};\n\n"));
    assert!(out.ends_with("public:\n    EmptyReader(uintptr_t base) : moduleBase(base) {}\n    \n};\n"));
}
