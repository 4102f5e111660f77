//! The entity-list scan: entities laid out as an array of structs or
//! reached through a table of pointers, each read at a list of value
//! offsets in one data type.  The reads happen outside the library;
//! `EntityScan` decides what to read next and keeps the results.

use vstd::prelude::*;

use crate::chain::add_offset;
use crate::format::{bits_of, hex_string_signed, hex_text};
use crate::memory::{as_signed, decode_le, le_value};
use crate::number::{from_str_radix, parse_radix};
use crate::parse::{base_address_chars, base_address_of};
use crate::scan::lemma_count_down;
use crate::text::{
    chars_equal, chars_of, copy_range, split_chars, split_on, trim, trimmed, views,
};
use crate::types::EntityResult;

verus! {

/// The number of bytes a value of data type `t` takes in a scan (4 for an
/// unknown type, read as `i32`).
pub open spec fn value_width(t: Seq<char>) -> nat {
    if t == "i8"@ {
        1
    } else if t == "i16"@ {
        2
    } else if t == "i64"@ || t == "f64"@ {
        8
    } else {
        4
    }
}

/// The number of bytes a refresh reads for data type `t`; an unknown type
/// is not refreshed.
pub open spec fn refresh_width_of(t: Seq<char>) -> Option<nat> {
    if t == "i8"@ || t == "i16"@ || t == "i32"@ || t == "i64"@ || t == "f32"@ || t == "f64"@ {
        Some(value_width(t))
    } else {
        None
    }
}

/// The value stored for bytes `b` of data type `t`: integers sign-extended,
/// floats as their bit patterns (an `f64`'s read as `i64`), an unknown type
/// as `i32`.
pub open spec fn decoded_value(t: Seq<char>, b: Seq<u8>) -> i64 {
    let v = le_value(b) as int;
    if t == "i8"@ {
        as_signed(v, 8) as i64
    } else if t == "i16"@ {
        as_signed(v, 16) as i64
    } else if t == "i64"@ || t == "f64"@ {
        as_signed(v, 64) as i64
    } else if t == "f32"@ {
        v as i64
    } else {
        as_signed(v, 32) as i64
    }
}

/// The number of bytes a scan reads per value of data type `t`.
pub fn entity_value_width(t: &str) -> (r: usize)
    ensures
        r as nat == value_width(t@),
{
    let c = chars_of(t);
    if chars_equal(c.as_slice(), "i8") {
        1
    } else if chars_equal(c.as_slice(), "i16") {
        2
    } else if chars_equal(c.as_slice(), "i64") || chars_equal(c.as_slice(), "f64") {
        8
    } else {
        4
    }
}

/// The number of bytes a refresh reads per value of data type `t`, or
/// `None` for a type that is not refreshed.
pub fn refresh_width(t: &str) -> (r: Option<usize>)
    ensures
        match r {
            Some(w) => refresh_width_of(t@) == Some(w as nat),
            None => refresh_width_of(t@) is None,
        },
{
    let c = chars_of(t);
    let c = c.as_slice();
    if chars_equal(c, "i8") || chars_equal(c, "i16") || chars_equal(c, "i32") || chars_equal(
        c,
        "i64",
    ) || chars_equal(c, "f32") || chars_equal(c, "f64") {
        Some(entity_value_width(t))
    } else {
        None
    }
}

/// The value stored for bytes read in data type `t`.
pub fn decode_entity_value(t: &str, bytes: &[u8]) -> (r: i64)
    requires
        bytes@.len() == value_width(t@),
    ensures
        r == decoded_value(t@, bytes@),
{
    let c = chars_of(t);
    let c = c.as_slice();
    let v = decode_le(bytes);
    proof {
        crate::memory::lemma_pow_facts();
        crate::memory::lemma_le_value_bound(bytes@);
    }
    if chars_equal(c, "i8") {
        if v < 128 {
            v as i64
        } else {
            v as i64 - 256
        }
    } else if chars_equal(c, "i16") {
        if v < 32768 {
            v as i64
        } else {
            v as i64 - 65536
        }
    } else if chars_equal(c, "i64") || chars_equal(c, "f64") {
        crate::memory::signed64(v)
    } else if chars_equal(c, "f32") {
        v as i64
    } else {
        if v < 2147483648 {
            v as i64
        } else {
            v as i64 - 4294967296
        }
    }
}

/// The label of a value offset, `format!("{:#X}", offset)`.
pub fn offset_label(offset: i64) -> (r: String)
    ensures
        r@ == hex_text(bits_of(offset)),
{
    hex_string_signed(offset)
}

/// `s` without its leading copies of the two-character `p`, as
/// `str::trim_start_matches` with a two-character pattern.
pub open spec fn strip_leading_pair(s: Seq<char>, p0: char, p1: char) -> Seq<char>
    decreases s.len(),
{
    if s.len() >= 2 && s[0] == p0 && s[1] == p1 {
        strip_leading_pair(s.skip(2), p0, p1)
    } else {
        s
    }
}

/// The offset a value label stands for: the label without its leading
/// `0x`s and then `0X`s, read as a base address (0 when it is none), its
/// bits taken as an `i64`.
pub open spec fn label_offset(name: Seq<char>) -> i64 {
    let digits = strip_leading_pair(strip_leading_pair(name, '0', 'x'), '0', 'X');
    match base_address_of(digits) {
        Ok(v) => as_signed(v as int, 64) as i64,
        Err(_) => 0,
    }
}

fn stripped_pair(s: &[char], p0: char, p1: char) -> (r: Vec<char>)
    ensures
        r@ == strip_leading_pair(s@, p0, p1),
{
    let len = s.len();
    let mut i: usize = 0;
    assert(s@.skip(0) =~= s@);
    while i < len && len - i >= 2 && s[i] == p0 && s[i + 1] == p1
        invariant
            i <= len == s.len(),
            strip_leading_pair(s@, p0, p1) == strip_leading_pair(s@.skip(i as int), p0, p1),
        decreases len - i,
    {
        assert(s@.skip(i as int).skip(2) =~= s@.skip(i + 2));
        i = i + 2;
    }
    let r = copy_range(s, i, len);
    assert(r@ =~= s@.skip(i as int));
    r
}

/// The offset a value label stands for.
pub fn offset_from_label(name: &str) -> (r: i64)
    ensures
        r == label_offset(name@),
{
    let c = chars_of(name);
    let a = stripped_pair(c.as_slice(), '0', 'x');
    let b = stripped_pair(a.as_slice(), '0', 'X');
    match base_address_chars(b.as_slice()) {
        Ok(v) => crate::memory::signed64(v),
        Err(_) => 0,
    }
}

/// The address of the value labelled `label` of the entity at
/// `entity_address`.
pub fn value_address(entity_address: u64, label: &str) -> (r: u64)
    ensures
        r == add_offset(entity_address, label_offset(label@)),
{
    entity_address.wrapping_add_signed(offset_from_label(label))
}

/// The value offsets of a comma-separated list: each piece, trimmed, read
/// as a base address and taken as an `i64`; pieces that are not addresses
/// are left out.
pub open spec fn value_offsets_of(pieces: Seq<Seq<char>>) -> Seq<i64>
    decreases pieces.len(),
{
    if pieces.len() == 0 {
        Seq::<i64>::empty()
    } else {
        let r = value_offsets_of(pieces.drop_last());
        match base_address_of(trim(pieces.last())) {
            Ok(v) => r.push(as_signed(v as int, 64) as i64),
            Err(_) => r,
        }
    }
}

/// The value offsets listed, comma-separated, in `s`.
pub fn parse_value_offsets(s: &str) -> (r: Vec<i64>)
    ensures
        r@ == value_offsets_of(split_on(s@, seq![','])),
{
    let cs = chars_of(s);
    let comma = vec![','];
    assert(comma@ =~= seq![',']);
    let pieces = split_chars(cs.as_slice(), comma.as_slice());
    let mut out: Vec<i64> = Vec::new();
    let mut i: usize = 0;
    assert(views(pieces@).take(0) =~= Seq::<Seq<char>>::empty());
    while i < pieces.len()
        invariant
            i <= pieces.len(),
            out@ == value_offsets_of(views(pieces@).take(i as int)),
        decreases pieces.len() - i,
    {
        assert(views(pieces@).take(i + 1).drop_last() =~= views(pieces@).take(i as int));
        assert(views(pieces@).take(i + 1).last() == pieces@[i as int]@);
        let t = trimmed(pieces[i].as_slice());
        match base_address_chars(t.as_slice()) {
            Ok(v) => {
                out.push(crate::memory::signed64(v));
            },
            Err(_) => {},
        }
        i = i + 1;
    }
    assert(views(pieces@).take(pieces.len() as int) =~= views(pieces@));
    out
}

/// The struct size a text gives: its base-address reading, or `0x100`.
pub open spec fn struct_size_of(s: Seq<char>) -> u64 {
    match base_address_of(s) {
        Ok(v) => v,
        Err(_) => 0x100,
    }
}

/// The struct size (or next-pointer offset) typed by the user.
pub fn parse_struct_size(s: &str) -> (r: u64)
    ensures
        r == struct_size_of(s@),
{
    match crate::parse::parse_base_address(s) {
        Ok(v) => v,
        Err(_) => 0x100,
    }
}

/// The entity count a text gives: its decimal reading when it fits in a
/// `usize`, or 100.
pub open spec fn count_of(s: Seq<char>) -> usize {
    match from_str_radix(s, 10, false) {
        Ok(v) => if v <= usize::MAX {
            v as usize
        } else {
            100
        },
        Err(_) => 100,
    }
}

/// The maximum entity count typed by the user, as `str::parse::<usize>`
/// reads it, or 100 when it does not.
pub fn parse_count(s: &str) -> (r: usize)
    ensures
        r == count_of(s@),
{
    let c = chars_of(s);
    match parse_radix(c.as_slice(), 10, false) {
        Ok(v) => if v <= usize::MAX as i128 {
            v as usize
        } else {
            100
        },
        Err(_) => 100,
    }
}

/// The address of entity `i`'s slot in a pointer table at `base`.
pub open spec fn slot_address(base: u64, i: int) -> u64 {
    ((base + i * 8) % 0x1_0000_0000_0000_0000) as u64
}

/// The address of entity `i` in an array of `struct_size`-byte entities
/// at `base`.
pub open spec fn array_address(base: u64, struct_size: u64, i: int) -> u64 {
    ((base + i * struct_size) % 0x1_0000_0000_0000_0000) as u64
}

/// A memory: the `len` bytes stored at an address (`None` when unreadable).
pub type ByteReads = spec_fn(u64, nat) -> Option<Seq<u8>>;

/// Every readable run of bytes has the length asked for.
pub open spec fn reads_sized(mem: ByteReads) -> bool {
    forall|a: u64, n: nat| #[trigger] mem(a, n) matches Some(b) ==> b.len() == n
}

/// The address of entity `i`: in pointer mode, the non-null pointer read
/// at its slot (`None` when unreadable or null); otherwise its place in the
/// array.
pub open spec fn entity_address(
    mem: ByteReads,
    pointer_mode: bool,
    base: u64,
    struct_size: u64,
    i: int,
) -> Option<u64> {
    if pointer_mode {
        match mem(slot_address(base, i), 8) {
            None => None,
            Some(b) => if le_value(b) == 0 {
                None
            } else {
                Some(le_value(b) as u64)
            },
        }
    } else {
        Some(array_address(base, struct_size, i))
    }
}

/// The labelled values of the entity at `address` for `offsets`: each
/// offset whose bytes can be read gives its label and decoded value.
pub open spec fn entity_values(mem: ByteReads, address: u64, offsets: Seq<i64>, t: Seq<char>) -> Seq<
    (Seq<char>, i64),
>
    decreases offsets.len(),
{
    if offsets.len() == 0 {
        Seq::empty()
    } else {
        let prev = entity_values(mem, address, offsets.drop_last(), t);
        let off = offsets.last();
        match mem(add_offset(address, off), value_width(t)) {
            None => prev,
            Some(b) => prev.push((hex_text(bits_of(off)), decoded_value(t, b))),
        }
    }
}

/// The configuration of an entity scan.
pub struct EntityConfig {
    pub pointer_mode: bool,
    pub base: u64,
    pub struct_size: u64,
    pub max_count: usize,
    pub value_offsets: Vec<i64>,
    pub data_type: String,
}

/// What an entity scan finds among entities `0..n` in `mem`: each entity
/// with an address and at least one readable value, with its index,
/// address and labelled values.
pub open spec fn entity_hits(mem: ByteReads, cfg: EntityConfig, n: nat) -> Seq<
    (int, u64, Seq<(Seq<char>, i64)>),
>
    decreases n,
{
    if n == 0 {
        Seq::empty()
    } else {
        let prev = entity_hits(mem, cfg, (n - 1) as nat);
        let i = n - 1;
        match entity_address(mem, cfg.pointer_mode, cfg.base, cfg.struct_size, i) {
            None => prev,
            Some(a) => {
                let vs = entity_values(mem, a, cfg.value_offsets@, cfg.data_type@);
                if vs.len() == 0 {
                    prev
                } else {
                    prev.push((i, a, vs))
                }
            },
        }
    }
}

/// The labels and values held by a vector of labelled values.
pub open spec fn pairs_view(v: Seq<(String, i64)>) -> Seq<(Seq<char>, i64)> {
    v.map_values(|p: (String, i64)| (p.0@, p.1))
}

/// `r` is the entry for `hit`.
pub open spec fn entity_result_for(r: EntityResult, hit: (int, u64, Seq<(Seq<char>, i64)>)) -> bool {
    &&& r.index == hit.0
    &&& r.address == hit.1
    &&& pairs_view(r.values@) == hit.2
    &&& r.valid
}

/// `rs` are the entries for `hits`, in order.
pub open spec fn entity_results_for(rs: Seq<EntityResult>, hits: Seq<(int, u64, Seq<(Seq<char>, i64)>)>) -> bool {
    &&& rs.len() == hits.len()
    &&& forall|k: int| 0 <= k < rs.len() ==> entity_result_for(#[trigger] rs[k], hits[k])
}

/// What an entity scan asks for next.
#[derive(Clone, Copy, Debug, PartialEq, Eq, Structural)]
pub enum EntityStep {
    /// Read this many bytes at this address and hand them to `on_bytes`.
    Read(u64, usize),
    /// The scan is over; its results are ready.
    Finished,
}

/// The reads one entity asks for: its slot in pointer mode, then one per
/// value offset.
pub open spec fn reads_per_entity(cfg: EntityConfig) -> nat {
    (if cfg.pointer_mode {
        1nat
    } else {
        0nat
    }) + cfg.value_offsets@.len()
}

/// An entity-list scan in progress.
pub struct EntityScan {
    cfg: EntityConfig,
    width: usize,
    index: usize,
    reading_slot: bool,
    address: u64,
    next_value: usize,
    values: Vec<(String, i64)>,
    results: Vec<EntityResult>,
}

impl EntityScan {
    /// The configuration of the scan.
    pub closed spec fn config(self) -> EntityConfig {
        self.cfg
    }

    /// Whether all entities are done.
    pub closed spec fn finished(self) -> bool {
        self.index >= self.cfg.max_count
    }

    /// The read the scan waits for.
    pub closed spec fn pending(self) -> (u64, nat) {
        if self.reading_slot {
            (slot_address(self.cfg.base, self.index as int), 8)
        } else {
            (add_offset(self.address, self.cfg.value_offsets@[self.next_value as int]), self.width as nat)
        }
    }

    /// The entries so far.
    pub closed spec fn results(self) -> Seq<EntityResult> {
        self.results@
    }

    /// The reads the scan still asks for: all reads of each entity left,
    /// and what remains of the current one.
    pub closed spec fn reads_left(self) -> nat {
        if self.index >= self.cfg.max_count {
            0
        } else {
            ((self.cfg.max_count - self.index - 1) * reads_per_entity(self.cfg) + (if self.reading_slot {
                1 + self.cfg.value_offsets@.len() as int
            } else {
                self.cfg.value_offsets@.len() - self.next_value
            })) as nat
        }
    }

    /// A scan asks for no more reads exactly when it is finished.
    pub proof fn lemma_finished_iff_no_reads(self)
        requires
            self.wf(),
        ensures
            self.finished() <==> self.reads_left() == 0,
    {
        if self.index < self.cfg.max_count {
            lemma_count_down((self.cfg.max_count - self.index) as int, reads_per_entity(self.cfg) as int);
        }
    }

    /// The step a scan in this state asks for.
    pub open spec fn next_step(self) -> EntityStep {
        if self.finished() {
            EntityStep::Finished
        } else {
            EntityStep::Read(self.pending().0, self.pending().1 as usize)
        }
    }

    /// The internal consistency every scan keeps.
    pub closed spec fn wf(self) -> bool {
        &&& self.index <= self.cfg.max_count
        &&& self.width as nat == value_width(self.cfg.data_type@)
        &&& self.index < self.cfg.max_count ==> {
            &&& self.reading_slot ==> self.cfg.pointer_mode && self.values@.len() == 0
            &&& !self.reading_slot ==> self.next_value < self.cfg.value_offsets@.len()
        }
    }

    /// The scan so far agrees with `mem`: its entries are those of the
    /// entities done, and the current entity's values so far are those of
    /// its first offsets.
    pub closed spec fn consistent(self, mem: ByteReads) -> bool {
        &&& entity_results_for(self.results@, entity_hits(mem, self.cfg, self.index as nat))
        &&& self.index < self.cfg.max_count && !self.reading_slot ==> {
            &&& entity_address(
                mem,
                self.cfg.pointer_mode,
                self.cfg.base,
                self.cfg.struct_size,
                self.index as int,
            ) == Some(self.address)
            &&& pairs_view(self.values@) == entity_values(
                mem,
                self.address,
                self.cfg.value_offsets@.take(self.next_value as int),
                self.cfg.data_type@,
            )
        }
    }

    /// Moves to the first read of entity `self.index` or a later one; in
    /// array mode with no value offsets every entity is empty, so the scan
    /// ends.
    fn begin_entity(&mut self)
        requires
            old(self).index <= old(self).cfg.max_count,
            old(self).width as nat == value_width(old(self).cfg.data_type@),
            old(self).values@.len() == 0,
        ensures
            final(self).wf(),
            final(self).cfg == old(self).cfg,
            final(self).results == old(self).results,
            final(self).index >= old(self).index,
            final(self).reads_left() == (old(self).cfg.max_count - old(self).index) * reads_per_entity(
                old(self).cfg,
            ),
            forall|mem: ByteReads| #![trigger final(self).consistent(mem)]
                entity_results_for(
                    old(self).results@,
                    entity_hits(mem, old(self).cfg, old(self).index as nat),
                ) ==> final(self).consistent(mem),
    {
        let ghost pre = *self;
        proof {
            let m = (pre.cfg.max_count - pre.index) as int;
            let k = reads_per_entity(pre.cfg) as int;
            if m >= 1 {
                lemma_count_down(m, k);
            } else {
                assert(0 * k == 0);
            }
            if k == 0 {
                assert(m * 0 == 0);
            }
        }
        if self.index < self.cfg.max_count {
            if self.cfg.pointer_mode {
                self.reading_slot = true;
            } else if self.cfg.value_offsets.len() > 0 {
                self.reading_slot = false;
                self.address = self.cfg.base.wrapping_add(
                    (self.index as u64).wrapping_mul(self.cfg.struct_size),
                );
                self.next_value = 0;
                self.values = Vec::new();
                proof {
                    assert(self.address == array_address(
                        self.cfg.base,
                        self.cfg.struct_size,
                        self.index as int,
                    )) by {
                        lemma_wrapping_address(self.cfg.base, self.cfg.struct_size, self.index as u64);
                    }
                    assert(self.cfg.value_offsets@.take(0) =~= Seq::<i64>::empty());
                    assert(pairs_view(self.values@) =~= Seq::<(Seq<char>, i64)>::empty());
                }
            } else {
                proof {
                    assert forall|mem: ByteReads, n: nat|
                        pre.index <= n <= pre.cfg.max_count implies #[trigger] entity_hits(
                            mem,
                            pre.cfg,
                            n,
                        ) == entity_hits(mem, pre.cfg, pre.index as nat) by {
                        lemma_empty_entities(mem, pre.cfg, pre.index as nat, n);
                    }
                }
                self.index = self.cfg.max_count;
            }
        }
    }

    /// Starts an entity scan with configuration `cfg`.
    pub fn start(cfg: EntityConfig) -> (r: (EntityScan, EntityStep))
        ensures
            r.0.wf(),
            r.0.config() == cfg,
            r.0.results() == Seq::<EntityResult>::empty(),
            r.0.reads_left() == cfg.max_count * reads_per_entity(cfg),
            r.1 == r.0.next_step(),
            forall|mem: ByteReads| #[trigger] r.0.consistent(mem),
    {
        let width = entity_value_width(cfg.data_type.as_str());
        let mut scan = EntityScan {
            cfg,
            width,
            index: 0,
            reading_slot: false,
            address: 0,
            next_value: 0,
            values: Vec::new(),
            results: Vec::new(),
        };
        proof {
            assert forall|mem: ByteReads| #![trigger entity_hits(mem, scan.cfg, 0)] entity_results_for(
                scan.results@,
                entity_hits(mem, scan.cfg, 0),
            ) by {}
        }
        scan.begin_entity();
        let step = scan.next_step_exec();
        (scan, step)
    }

    fn next_step_exec(&self) -> (s: EntityStep)
        requires
            self.wf(),
        ensures
            s == self.next_step(),
    {
        if self.index >= self.cfg.max_count {
            EntityStep::Finished
        } else if self.reading_slot {
            proof {
                lemma_wrapping_address(self.cfg.base, 8, self.index as u64);
            }
            EntityStep::Read(self.cfg.base.wrapping_add((self.index as u64).wrapping_mul(8)), 8)
        } else {
            EntityStep::Read(
                self.address.wrapping_add_signed(self.cfg.value_offsets[self.next_value]),
                self.width,
            )
        }
    }

    /// Ends the current entity, keeping it when it has values, and moves on.
    fn finish_entity(&mut self)
        requires
            old(self).index < old(self).cfg.max_count,
            old(self).width as nat == value_width(old(self).cfg.data_type@),
        ensures
            final(self).wf(),
            final(self).cfg == old(self).cfg,
            final(self).index > old(self).index,
            final(self).reads_left() == (old(self).cfg.max_count - old(self).index - 1) * reads_per_entity(
                old(self).cfg,
            ),
            final(self).results@ == (if old(self).values@.len() > 0 {
                old(self).results@.push(
                    EntityResult {
                        index: old(self).index,
                        address: old(self).address,
                        values: old(self).values,
                        valid: true,
                    },
                )
            } else {
                old(self).results@
            }),
            forall|mem: ByteReads| #![trigger final(self).consistent(mem)]
                entity_results_for(
                    final(self).results@,
                    entity_hits(mem, old(self).cfg, (old(self).index + 1) as nat),
                ) ==> final(self).consistent(mem),
    {
        if self.values.len() > 0 {
            let mut values: Vec<(String, i64)> = Vec::new();
            std::mem::swap(&mut values, &mut self.values);
            self.results.push(EntityResult { index: self.index, address: self.address, values, valid: true });
        }
        self.index = self.index + 1;
        self.begin_entity();
    }

    /// Takes the bytes read for the awaited read (`None` when the read
    /// failed) and says what comes next.  Whenever the scan agreed with a
    /// memory that holds these bytes there, it still does.
    pub fn on_bytes(&mut self, bytes: Option<&[u8]>) -> (step: EntityStep)
        requires
            old(self).wf(),
            !old(self).finished(),
            bytes matches Some(b) ==> b@.len() == old(self).pending().1,
        ensures
            final(self).wf(),
            final(self).config() == old(self).config(),
            step == final(self).next_step(),
            final(self).reads_left() < old(self).reads_left(),
            forall|mem: ByteReads| #![trigger final(self).consistent(mem)]
                old(self).consistent(mem) && reads_sized(mem) && mem(
                    old(self).pending().0,
                    old(self).pending().1,
                ) == (match bytes {
                    Some(b) => Some(b@),
                    None => None,
                }) ==> final(self).consistent(mem),
    {
        let ghost pre = *self;
        let ghost answer = match bytes {
            Some(b) => Some(b@),
            None => None::<Seq<u8>>,
        };
        proof {
            lemma_count_down((pre.cfg.max_count - pre.index) as int, reads_per_entity(pre.cfg) as int);
        }
        if self.reading_slot {
            match bytes {
                None => {
                    self.finish_entity();
                    proof {
                        assert forall|mem: ByteReads| #![trigger self.consistent(mem)]
                            pre.consistent(mem) && reads_sized(mem) && mem(pre.pending().0, pre.pending().1)
                                == answer implies self.consistent(mem) by {
                            assert(entity_hits(mem, pre.cfg, (pre.index + 1) as nat) == entity_hits(
                                mem,
                                pre.cfg,
                                pre.index as nat,
                            ));
                        }
                    }
                },
                Some(b) => {
                    let a = decode_le(b);
                    if a == 0 {
                        self.finish_entity();
                        proof {
                            assert forall|mem: ByteReads| #![trigger self.consistent(mem)]
                                pre.consistent(mem) && reads_sized(mem) && mem(
                                    pre.pending().0,
                                    pre.pending().1,
                                ) == answer implies self.consistent(mem) by {
                                assert(entity_hits(mem, pre.cfg, (pre.index + 1) as nat)
                                    == entity_hits(mem, pre.cfg, pre.index as nat));
                            }
                        }
                    } else {
                        self.reading_slot = false;
                        self.address = a;
                        self.next_value = 0;
                        self.values = Vec::new();
                        if self.cfg.value_offsets.len() == 0 {
                            self.finish_entity();
                            proof {
                                assert forall|mem: ByteReads| #![trigger self.consistent(mem)]
                                    pre.consistent(mem) && reads_sized(mem) && mem(
                                        pre.pending().0,
                                        pre.pending().1,
                                    ) == answer implies self.consistent(mem) by {
                                    assert(pre.cfg.value_offsets@ =~= Seq::<i64>::empty());
                                    assert(entity_hits(mem, pre.cfg, (pre.index + 1) as nat)
                                        == entity_hits(mem, pre.cfg, pre.index as nat));
                                }
                            }
                        } else {
                            proof {
                                assert forall|mem: ByteReads| #![trigger self.consistent(mem)]
                                    pre.consistent(mem) && reads_sized(mem) && mem(
                                        pre.pending().0,
                                        pre.pending().1,
                                    ) == answer implies self.consistent(mem) by {
                                    assert(self.cfg.value_offsets@.take(0) =~= Seq::<i64>::empty());
                                    assert(pairs_view(self.values@) =~= Seq::<
                                        (Seq<char>, i64),
                                    >::empty());
                                }
                            }
                        }
                    }
                },
            }
        } else {
            let off = self.cfg.value_offsets[self.next_value];
            match bytes {
                Some(b) => {
                    let v = decode_entity_value(self.cfg.data_type.as_str(), b);
                    let label = offset_label(off);
                    self.values.push((label, v));
                },
                None => {},
            }
            assert(self.next_value < self.cfg.value_offsets.len());
            self.next_value = self.next_value + 1;
            let ghost mid = *self;
            if self.next_value == self.cfg.value_offsets.len() {
                self.finish_entity();
                proof {
                    assert forall|mem: ByteReads| #![trigger self.consistent(mem)]
                        pre.consistent(mem) && reads_sized(mem) && mem(pre.pending().0, pre.pending().1)
                            == answer implies self.consistent(mem) by {
                        let offs = pre.cfg.value_offsets@.take(mid.next_value as int);
                        assert(offs.drop_last() =~= pre.cfg.value_offsets@.take(pre.next_value as int));
                        assert(offs.last() == off);
                        assert(pairs_view(mid.values@) =~= entity_values(
                            mem,
                            mid.address,
                            offs,
                            mid.cfg.data_type@,
                        ));
                        assert(mid.cfg.value_offsets@.take(mid.next_value as int)
                            =~= mid.cfg.value_offsets@);
                        assert(pairs_view(mid.values@) == entity_values(
                            mem,
                            mid.address,
                            mid.cfg.value_offsets@.take(mid.next_value as int),
                            mid.cfg.data_type@,
                        ));
                        let hits = entity_hits(mem, pre.cfg, pre.index as nat);
                        let next = entity_hits(mem, pre.cfg, (pre.index + 1) as nat);
                        if mid.values@.len() > 0 {
                            assert(next == hits.push(
                                (pre.index as int, mid.address, pairs_view(mid.values@)),
                            ));
                            assert forall|k: int| 0 <= k < self.results@.len() implies entity_result_for(
                                #[trigger] self.results@[k],
                                next[k],
                            ) by {
                                if k < pre.results@.len() {
                                    assert(self.results@[k] == pre.results@[k]);
                                }
                            }
                        } else {
                            assert(next == hits);
                        }
                    }
                }
            } else {
                proof {
                    assert forall|mem: ByteReads| #![trigger self.consistent(mem)]
                        pre.consistent(mem) && reads_sized(mem) && mem(pre.pending().0, pre.pending().1)
                            == answer implies self.consistent(mem) by {
                        let offs = pre.cfg.value_offsets@.take(mid.next_value as int);
                        assert(offs.drop_last() =~= pre.cfg.value_offsets@.take(pre.next_value as int));
                        assert(offs.last() == off);
                        assert(pairs_view(mid.values@) =~= entity_values(
                            mem,
                            mid.address,
                            offs,
                            mid.cfg.data_type@,
                        ));
                    }
                }
            }
        }
        self.next_step_exec()
    }

    /// The entries of the scan.  When the scan is finished and agreed with
    /// the memory throughout, they are the entries for all entities.
    pub fn into_results(self) -> (r: Vec<EntityResult>)
        ensures
            r@ == self.results(),
            forall|mem: ByteReads| #![trigger self.consistent(mem)]
                self.wf() && self.finished() && self.consistent(mem) ==> entity_results_for(
                    r@,
                    entity_hits(mem, self.config(), self.config().max_count as nat),
                ),
    {
        self.results
    }
}

proof fn lemma_wrapping_address(base: u64, size: u64, i: u64)
    ensures
        base.wrapping_add(i.wrapping_mul(size)) as int == ((base + i * size) % 0x1_0000_0000_0000_0000),
{
    let m = (i as nat * size as nat) % 0x1_0000_0000_0000_0000;
    assert(i.wrapping_mul(size) as int == m);
    vstd::arithmetic::div_mod::lemma_add_mod_noop(base as int, (i * size) as int, 0x1_0000_0000_0000_0000);
    vstd::arithmetic::div_mod::lemma_small_mod(base as nat, 0x1_0000_0000_0000_0000);
    vstd::arithmetic::div_mod::lemma_mod_bound((base + m) as int, 0x1_0000_0000_0000_0000);
    if base + m >= 0x1_0000_0000_0000_0000 {
        vstd::arithmetic::div_mod::lemma_fundamental_div_mod_converse(
            (base + m) as int,
            0x1_0000_0000_0000_0000,
            1,
            base + m - 0x1_0000_0000_0000_0000,
        );
    } else {
        vstd::arithmetic::div_mod::lemma_small_mod((base + m) as nat, 0x1_0000_0000_0000_0000);
    }
}

/// In array mode with no value offsets, no entity is kept.
proof fn lemma_empty_entities(mem: ByteReads, cfg: EntityConfig, from: nat, n: nat)
    requires
        !cfg.pointer_mode,
        cfg.value_offsets@.len() == 0,
        from <= n,
    ensures
        entity_hits(mem, cfg, n) == entity_hits(mem, cfg, from),
    decreases n - from,
{
    if from < n {
        lemma_empty_entities(mem, cfg, from, (n - 1) as nat);
    }
}

} // verus!
