use std::collections::HashMap;

use memlib::{
    decode_entity_value, entity_value_width, offset_from_label, offset_label, parse_count,
    parse_i32, parse_struct_size, parse_u32, parse_u64, parse_value_offsets, refresh_width,
    value_address, EntityConfig, EntityResult, EntityScan, EntityStep,
};

#[test]
fn widths_and_decoding() {
    assert_eq!(entity_value_width("i8"), 1);
    assert_eq!(entity_value_width("i16"), 2);
    assert_eq!(entity_value_width("f32"), 4);
    assert_eq!(entity_value_width("f64"), 8);
    assert_eq!(entity_value_width("other"), 4);
    assert_eq!(refresh_width("i64"), Some(8));
    assert_eq!(refresh_width("other"), None);
    assert_eq!(decode_entity_value("i8", &[0xFF]), -1);
    assert_eq!(decode_entity_value("i16", &[0x00, 0x80]), -32768);
    assert_eq!(decode_entity_value("i32", &(-5i32).to_le_bytes()), -5);
    assert_eq!(decode_entity_value("f32", &1.5f32.to_le_bytes()), 1.5f32.to_bits() as i64);
    assert_eq!(decode_entity_value("f64", &(-2.0f64).to_le_bytes()), (-2.0f64).to_bits() as i64);
    assert_eq!(decode_entity_value("u8", &(-7i32).to_le_bytes()), -7);
}

#[test]
fn value_labels_read_back() {
    assert_eq!(offset_label(0x100), "0x100");
    assert_eq!(offset_label(-1), "0xFFFFFFFFFFFFFFFF");
    for o in [0i64, 0x104, -0x20, i64::MIN, i64::MAX] {
        assert_eq!(offset_from_label(&offset_label(o)), o);
    }
    assert_eq!(offset_from_label("0x0x10"), 0x10);
    assert_eq!(offset_from_label("garbage"), 0);
    assert_eq!(value_address(0x1000, "0x20"), 0x1020);
    assert_eq!(value_address(0x10, "0xFFFFFFFFFFFFFFF0"), 0);
}

#[test]
fn typed_settings() {
    assert_eq!(parse_value_offsets("0x100, 0x104,zz,,0x120"), vec![0x100, 0x104, 0x120]);
    assert_eq!(parse_value_offsets("FFFFFFFFFFFFFFFF"), vec![-1]);
    assert_eq!(parse_struct_size("0x80"), 0x80);
    assert_eq!(parse_struct_size("nope"), 0x100);
    assert_eq!(parse_count("25"), 25);
    assert_eq!(parse_count(" 25"), 100);
    assert_eq!(parse_count("abc"), 100);
    assert_eq!(parse_u32("1000"), Some(1000));
    assert_eq!(parse_u32("4294967296"), None);
    assert_eq!(parse_i32("-1"), Some(-1));
    assert_eq!(parse_i32("2147483648"), None);
    assert_eq!(parse_u64("500"), Some(500));
    assert_eq!(parse_u64("-1"), None);
}

fn run(mem: &HashMap<u64, Vec<u8>>, cfg: EntityConfig) -> Vec<EntityResult> {
    let (mut scan, mut next) = EntityScan::start(cfg);
    loop {
        next = match next {
            EntityStep::Read(a, n) => {
                let got = mem.get(&a).filter(|b| b.len() >= n).map(|b| b[..n].to_vec());
                scan.on_bytes(got.as_deref())
            }
            EntityStep::Finished => break,
        };
    }
    scan.into_results()
}

fn put(mem: &mut HashMap<u64, Vec<u8>>, a: u64, b: &[u8]) {
    mem.insert(a, b.to_vec());
}

#[test]
fn array_scan() {
    let mut mem = HashMap::new();
    put(&mut mem, 0x1000, &10i32.to_le_bytes());
    put(&mut mem, 0x1004, &11i32.to_le_bytes());
    put(&mut mem, 0x1104, &21i32.to_le_bytes());
    let cfg = EntityConfig {
        pointer_mode: false,
        base: 0x1000,
        struct_size: 0x100,
        max_count: 3,
        value_offsets: vec![0x0, 0x4],
        data_type: "i32".to_string(),
    };
    let res = run(&mem, cfg);
    assert_eq!(res.len(), 2);
    assert_eq!((res[0].index, res[0].address), (0, 0x1000));
    assert_eq!(res[0].values, vec![("0x0".to_string(), 10), ("0x4".to_string(), 11)]);
    assert_eq!((res[1].index, res[1].address), (1, 0x1100));
    assert_eq!(res[1].values, vec![("0x4".to_string(), 21)]);
    assert!(res.iter().all(|r| r.valid));
}

#[test]
fn pointer_table_scan() {
    let mut mem = HashMap::new();
    put(&mut mem, 0x2000, &0x9000u64.to_le_bytes());
    put(&mut mem, 0x2008, &0u64.to_le_bytes());
    put(&mut mem, 0x2010, &0xA000u64.to_le_bytes());
    put(&mut mem, 0x9010, &[7]);
    put(&mut mem, 0xA010, &[0xF9]);
    let cfg = EntityConfig {
        pointer_mode: true,
        base: 0x2000,
        struct_size: 0,
        max_count: 4,
        value_offsets: vec![0x10],
        data_type: "i8".to_string(),
    };
    let res = run(&mem, cfg);
    assert_eq!(res.len(), 2);
    assert_eq!((res[0].index, res[0].address), (0, 0x9000));
    assert_eq!(res[0].values, vec![("0x10".to_string(), 7)]);
    assert_eq!((res[1].index, res[1].address), (2, 0xA000));
    assert_eq!(res[1].values, vec![("0x10".to_string(), -7)]);
}

#[test]
fn scan_without_offsets_finds_nothing() {
    let mem = HashMap::new();
    let cfg = EntityConfig {
        pointer_mode: false,
        base: 0,
        struct_size: 4,
        max_count: 1000,
        value_offsets: vec![],
        data_type: "i32".to_string(),
    };
    assert!(run(&mem, cfg).is_empty());
}
