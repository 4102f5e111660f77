use std::collections::HashMap;

use memlib::{
    extract_final_offset, le_bytes, offset_path, parse_offsets, refresh_readings, scan_offsets,
    traversal_result_at, MemoryScan, ScanStep, TraversalResult,
};

#[test]
fn iteration_offsets_replace_the_chosen_offset() {
    assert_eq!(scan_offsets(&[0x40, 0x20, 0x0], -1, 3, 4), vec![0x40, 0x20, 12]);
    assert_eq!(scan_offsets(&[0x40, 0x20, 0x0], 0, 3, 4), vec![12, 0x20, 0x0]);
    assert_eq!(scan_offsets(&[0x40, 0x20, 0x0], 7, 3, 4), vec![0x40, 0x20, 12]);
    assert_eq!(scan_offsets(&[], -1, 5, 8), vec![40]);
    assert_eq!(scan_offsets(&[1], -1, u32::MAX, u32::MAX), vec![(u32::MAX as u64 * u32::MAX as u64) as i64]);
}

#[test]
fn paths_of_offsets() {
    assert_eq!(offset_path(&[0x40, 0x20, 0xC]), "[[base]+0x40]+0x20]+0xC]");
    assert_eq!(offset_path(&[]), "[[base]");
    assert_eq!(offset_path(&[-16]), "[[base]+0xFFFFFFFFFFFFFFF0]");
}

#[test]
fn paths_read_back_as_their_offsets() {
    let offs = vec![0x40, 0x20, 0x0, 0x7FFF_FFFF_FFFF_FFFF];
    assert_eq!(parse_offsets(&offset_path(&offs)).unwrap(), offs);
    assert_eq!(extract_final_offset(&offset_path(&offs)), 0x7FFF_FFFF_FFFF_FFFF);
    assert_eq!(extract_final_offset(&offset_path(&[-16])), 0xFFFF_FFFF_FFFF_FFF0);
}

fn run(
    ptrs: &HashMap<u64, u64>,
    bytes: &HashMap<u64, [u8; 8]>,
    base: u64,
    offsets: Vec<i64>,
    count: u32,
    step: u32,
    index: i32,
) -> Vec<TraversalResult> {
    let (mut scan, mut next) = MemoryScan::start(base, offsets, count, step, index);
    loop {
        next = match next {
            ScanStep::ReadPointer(a) => scan.on_pointer(ptrs.get(&a).copied()),
            ScanStep::ReadValue(a) => scan.on_value(bytes.get(&a).map(|b| &b[..])),
            ScanStep::Finished => break,
        };
    }
    scan.into_results()
}

#[test]
fn memory_scan_reads_each_iteration() {
    let mut ptrs = HashMap::new();
    ptrs.insert(0x1000, 0x5000);
    ptrs.insert(0x5040, 0x6000);
    let mut bytes = HashMap::new();
    bytes.insert(0x6000, 100i64.to_le_bytes());
    bytes.insert(0x6004, 200i64.to_le_bytes());
    bytes.insert(0x600C, 300i64.to_le_bytes());
    let results = run(&ptrs, &bytes, 0x1000, vec![0x40, 0x0], 4, 4, -1);
    let found: Vec<(u64, i32, String)> =
        results.iter().map(|r| (r.actual_address, r.value_i32, r.offset_path.clone())).collect();
    assert_eq!(
        found,
        vec![
            (0x6000, 100, "[[base]+0x40]+0x0]".to_string()),
            (0x6004, 200, "[[base]+0x40]+0x4]".to_string()),
            (0x600C, 300, "[[base]+0x40]+0xC]".to_string()),
        ]
    );
    assert!(results.iter().all(|r| r.valid && r.selected_type == "i32"));
}

#[test]
fn memory_scan_skips_broken_chains() {
    let ptrs = HashMap::new();
    let bytes = HashMap::new();
    assert!(run(&ptrs, &bytes, 0x1000, vec![0x40, 0x0], 10, 4, -1).is_empty());
    assert!(run(&ptrs, &bytes, 0x1000, vec![0x40], 0, 4, -1).is_empty());
}

#[test]
fn refreshing_copies_valid_readings_only() {
    let mut r = traversal_result_at(0x10, Some(&le_bytes(5, 8)));
    r.label = "hp".to_string();
    let fresh = traversal_result_at(0x10, Some(&le_bytes(9, 8)));
    refresh_readings(&mut r, &fresh);
    assert_eq!(r.value_u64, 9);
    assert_eq!(r.label, "hp");
    let failed = traversal_result_at(0x10, None);
    refresh_readings(&mut r, &failed);
    assert_eq!(r.value_u64, 9);
    assert!(r.valid);
}

/// The pointer layout of the sample game: a global that points at the game
/// world, whose player (at 0x40) points at its stats (at 0x20).
fn game_memory() -> (HashMap<u64, u64>, HashMap<u64, [u8; 8]>) {
    let mut ptrs = HashMap::new();
    ptrs.insert(0x1000, 0x2000);
    ptrs.insert(0x2000, 0x3000);
    ptrs.insert(0x3040, 0x4000);
    ptrs.insert(0x4020, 0x5000);
    let mut bytes = HashMap::new();
    let stats: [(u64, i32); 6] = [(0x5000, 90), (0x5004, 100), (0x5008, 60), (0x500C, 100), (0x5010, 77), (0x5014, 42)];
    for (address, value) in stats {
        bytes.insert(address, (value as i64).to_le_bytes());
    }
    (ptrs, bytes)
}

#[test]
fn health_through_the_sample_chain() {
    let (ptrs, bytes) = game_memory();
    let health = run(&ptrs, &bytes, 0x1000, parse_offsets("0x0+0x40+0x20+0x0").unwrap(), 1, 4, -1);
    assert_eq!(health.len(), 1);
    assert_eq!((health[0].actual_address, health[0].value_i32), (0x5000, 90));
    let (_, first) = MemoryScan::start(0x1000, vec![0x0, 0x40, 0x20, 0x0], 1, 4, -1);
    assert!(matches!(first, ScanStep::ReadPointer(0x1000)));
}

#[test]
fn scanning_a_range_of_stats() {
    let (ptrs, bytes) = game_memory();
    let results = run(&ptrs, &bytes, 0x1000, parse_offsets("0x0+0x40+0x20+0x0").unwrap(), 6, 4, -1);
    let found: Vec<(u64, i32)> = results.iter().map(|r| (r.actual_address, r.value_i32)).collect();
    assert_eq!(
        found,
        vec![(0x5000, 90), (0x5004, 100), (0x5008, 60), (0x500C, 100), (0x5010, 77), (0x5014, 42)]
    );
}
