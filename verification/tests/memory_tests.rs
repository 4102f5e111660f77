use std::collections::HashMap;

use memlib::{decode_le, le_bytes, traversal_result_at, ChainStep, PointerChain};

#[test]
fn little_endian_decoding() {
    assert_eq!(decode_le(&[]), 0);
    assert_eq!(decode_le(&[0x34, 0x12]), 0x1234);
    assert_eq!(decode_le(&[0x78, 0x56, 0x34, 0x12]), 0x12345678);
    assert_eq!(decode_le(&[0xff; 8]), u64::MAX);
}

#[test]
fn little_endian_encoding() {
    assert_eq!(le_bytes(0x1234, 2), vec![0x34, 0x12]);
    assert_eq!(le_bytes(0x1234, 1), vec![0x34]);
    assert_eq!(le_bytes((-2i32) as u32 as u64, 4), (-2i32).to_le_bytes().to_vec());
    assert_eq!(le_bytes(u64::MAX, 8), vec![0xff; 8]);
    assert_eq!(le_bytes(7, 0), Vec::<u8>::new());
}

#[test]
fn write_then_read_gives_the_value_back() {
    let v: i64 = -123456789;
    let bytes = le_bytes(v as u64, 8);
    let r = traversal_result_at(0x1000, Some(&bytes));
    assert_eq!(r.value_i64, v);
    let w: i16 = -300;
    let mut buf = le_bytes(w as u16 as u64, 2);
    buf.extend_from_slice(&[0; 6]);
    let r = traversal_result_at(0x1000, Some(&buf));
    assert_eq!(r.value_i16, w);
}

#[test]
fn reading_in_every_width() {
    let bytes = [0xFE, 0xFF, 0xFF, 0xFF, 0x01, 0x00, 0x00, 0x80];
    let r = traversal_result_at(0x2000, Some(&bytes));
    assert!(r.valid);
    assert_eq!(r.actual_address, 0x2000);
    assert_eq!(r.value_u8, 0xFE);
    assert_eq!(r.value_i8, -2);
    assert_eq!(r.value_u16, 0xFFFE);
    assert_eq!(r.value_i16, -2);
    assert_eq!(r.value_u32, 0xFFFF_FFFE);
    assert_eq!(r.value_i32, -2);
    assert_eq!(r.value_u64, 0x8000_0001_FFFF_FFFE);
    assert_eq!(r.value_i64, 0x8000_0001_FFFF_FFFEu64 as i64);
    assert_eq!(r.selected_type, "i32");
    assert_eq!(r.label, "");
}

#[test]
fn failed_read_gives_a_blank_result() {
    let r = traversal_result_at(0x3000, None);
    assert!(!r.valid);
    assert_eq!(r.actual_address, 0x3000);
    assert_eq!(r.value_u64, 0);
    assert_eq!(r.selected_type, "i32");
}

#[test]
fn default_result() {
    let r = memlib::TraversalResult::default();
    assert_eq!(r.selected_type, "i32");
    assert_eq!(r.actual_address, 0);
    assert!(!r.valid);
}

fn follow(mem: &HashMap<u64, u64>, base: u64, offsets: Vec<i64>) -> (Option<u64>, usize) {
    let (mut chain, mut step) = PointerChain::start(base, offsets);
    let mut reads = 0;
    loop {
        match step {
            ChainStep::Read(a) => {
                reads += 1;
                step = chain.resume(mem.get(&a).copied());
            }
            ChainStep::Done(r) => return (r, reads),
        }
    }
}

#[test]
fn pointer_chain_follows_each_offset() {
    // base -> world; world+0x40 -> player; player+0x20 -> stats
    let mut mem = HashMap::new();
    mem.insert(0x1000, 0x5000);
    mem.insert(0x5000, 0x5000);
    mem.insert(0x5040, 0x6000);
    mem.insert(0x6020, 0x7000);
    assert_eq!(follow(&mem, 0x1000, vec![0x0, 0x40, 0x20, 0x0]), (Some(0x7000), 4));
    assert_eq!(follow(&mem, 0x1000, vec![0x40, 0x20, 0x8]), (Some(0x7008), 3));
}

#[test]
fn pointer_chain_without_offsets_reads_the_base() {
    let mut mem = HashMap::new();
    mem.insert(0x1000, 0x5000);
    assert_eq!(follow(&mem, 0x1000, vec![]), (Some(0x5000), 1));
    assert_eq!(follow(&mem, 0x2000, vec![]), (None, 1));
}

#[test]
fn pointer_chain_stops_at_a_failed_read() {
    let mut mem = HashMap::new();
    mem.insert(0x1000, 0x5000);
    assert_eq!(follow(&mem, 0x1000, vec![0x10, 0x20, 0x30]), (None, 2));
}

#[test]
fn pointer_chain_offsets_wrap_around() {
    let mut mem = HashMap::new();
    mem.insert(0x1000, 0x10);
    assert_eq!(follow(&mem, 0x1000, vec![-0x20]), (Some(0xFFFF_FFFF_FFFF_FFF0), 1));
    mem.insert(0x2000, u64::MAX);
    assert_eq!(follow(&mem, 0x2000, vec![2]), (Some(1), 1));
}

#[test]
fn pointer_widths() {
    assert_eq!(memlib::pointer_width(true), 8);
    assert_eq!(memlib::pointer_width(false), 4);
}
