//! The records the tool shows, scans and saves.

use vstd::prelude::*;

use crate::text::string_from;

verus! {

/// A running process as listed for selection.
#[derive(Clone, Debug, PartialEq)]
pub struct ProcessInfo {
    pub pid: u32,
    pub name: String,
    pub exe_path: String,
    pub is_64bit: bool,
}

/// A module loaded in a process.
#[derive(Clone, Debug, PartialEq)]
pub struct ModuleInfo {
    pub name: String,
    pub base_address: u64,
    pub size: u32,
}

/// One entry of an entity-list scan: the entity's address and the values
/// read at each value offset, labelled with the offset in `0x..` form.
#[derive(Clone, Debug, Default)]
pub struct EntityResult {
    pub index: usize,
    pub address: u64,
    pub values: Vec<(String, i64)>,
    pub valid: bool,
}

/// The values read at one address, in every integer width, with the path
/// that led there.  The `f32` and `f64` readings are the bit patterns
/// `value_u32` and `value_u64`.
#[derive(Clone, Debug)]
pub struct TraversalResult {
    pub label: String,
    pub offset_path: String,
    pub selected_type: String,
    pub actual_address: u64,
    pub value_i8: i8,
    pub value_i16: i16,
    pub value_i32: i32,
    pub value_i64: i64,
    pub value_u8: u8,
    pub value_u16: u16,
    pub value_u32: u32,
    pub value_u64: u64,
    pub valid: bool,
}

/// A memory traversal's configuration and results, as saved.
#[derive(Clone, Debug)]
pub struct SavedMemoryScan {
    pub base_address: String,
    pub offsets: String,
    pub loop_count: u32,
    pub step_size: u32,
    pub field_names: String,
    pub results: Vec<TraversalResult>,
}

/// An entity-list scan's configuration and results, as saved.
#[derive(Clone, Debug)]
pub struct SavedEntityScan {
    pub mode: String,
    pub base_address: String,
    pub struct_size: String,
    pub max_count: usize,
    pub value_offsets: String,
    pub data_type: String,
    pub results: Vec<EntityResult>,
}

impl TraversalResult {
    /// Every reading is zero.
    pub open spec fn readings_zero(self) -> bool {
        &&& self.value_i8 == 0
        &&& self.value_i16 == 0
        &&& self.value_i32 == 0
        &&& self.value_i64 == 0
        &&& self.value_u8 == 0
        &&& self.value_u16 == 0
        &&& self.value_u32 == 0
        &&& self.value_u64 == 0
    }

    /// No reading, at `address`: empty label and path, type `i32`.
    pub open spec fn is_blank_at(self, address: u64) -> bool {
        &&& self.label@ == Seq::<char>::empty()
        &&& self.offset_path@ == Seq::<char>::empty()
        &&& self.selected_type@ == "i32"@
        &&& self.actual_address == address
        &&& self.readings_zero()
        &&& !self.valid
    }

    /// A result at `address` with nothing read.
    pub fn blank_at(address: u64) -> (r: TraversalResult)
        ensures
            r.is_blank_at(address),
    {
        TraversalResult {
            label: String::new(),
            offset_path: String::new(),
            selected_type: string_from("i32"),
            actual_address: address,
            value_i8: 0,
            value_i16: 0,
            value_i32: 0,
            value_i64: 0,
            value_u8: 0,
            value_u16: 0,
            value_u32: 0,
            value_u64: 0,
            valid: false,
        }
    }
}

impl Default for TraversalResult {
    fn default() -> (r: TraversalResult)
        ensures
            r.is_blank_at(0),
    {
        TraversalResult::blank_at(0)
    }
}

} // verus!
