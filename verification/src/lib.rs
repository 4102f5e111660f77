//! Pointer-chain memory inspection: offset parsing, address arithmetic and
//! value decoding, with the process access kept outside the library.


pub mod text;
pub mod number;
pub mod parse;
pub mod types;
pub mod memory;
pub mod chain;
pub mod format;
pub mod export;
pub mod process;
pub mod scan;
pub mod entity;
pub mod roundtrip;
pub mod header_laws;
pub mod type_laws;

pub use chain::{ChainStep, PointerChain};
pub use export::{capitalize, cpp_type_name, export_to_cpp, extract_final_offset, extract_offsets_from_path, sanitize_name, type_size};
pub use memory::{decode_le, le_bytes, pointer_width, traversal_result_at};
pub use parse::{parse_base_address, parse_bracket_notation, parse_hex_or_dec, parse_offsets};
pub use process::{filter_processes, name_from_wide, sort_processes};
pub use types::{EntityResult, ModuleInfo, ProcessInfo, SavedEntityScan, SavedMemoryScan, TraversalResult};
pub use entity::{
    decode_entity_value, entity_value_width, offset_from_label, offset_label, parse_count,
    parse_struct_size, parse_value_offsets, refresh_width, value_address, EntityConfig, EntityScan,
    EntityStep,
};
pub use number::{parse_i32, parse_u32, parse_u64};
pub use scan::{offset_path, refresh_readings, scan_offsets, MemoryScan, ScanStep};
