//! The memory traversal scan: for each loop iteration, one offset of the
//! chain is replaced by `iteration * step`, the chain is followed and the
//! address it leads to is read in every width.  The reads happen outside
//! the library; `MemoryScan` decides what to read next and keeps the
//! results.

use vstd::prelude::*;

use crate::chain::{chain_target, ChainStep, PointerChain};
use crate::format::{bits_of, hex_text, push_hex};
use crate::memory::{reads_as, unsigned64};
use crate::text::{push_str, string_from};
use crate::types::TraversalResult;

verus! {

/// `i * step` as an `i64`, wrapping as two's complement arithmetic does.
pub open spec fn loop_offset(i: int, step: int) -> i64 {
    let v = i * step;
    if v > i64::MAX {
        (v - 0x1_0000_0000_0000_0000) as i64
    } else {
        v as i64
    }
}

/// The index of the offset a scan replaces: `offset_index` when it names
/// an offset, otherwise the last one (0 when there are none).
pub open spec fn target_index(len: nat, offset_index: i32) -> int {
    if offset_index < 0 || offset_index >= len {
        if len == 0 {
            0
        } else {
            len - 1
        }
    } else {
        offset_index as int
    }
}

/// The offsets of iteration `i`: the targeted offset becomes `i * step`;
/// with no offsets, `i * step` is the only one.
pub open spec fn iteration_offsets(offsets: Seq<i64>, offset_index: i32, i: int, step: int) -> Seq<i64> {
    if offsets.len() == 0 {
        seq![loop_offset(i, step)]
    } else {
        offsets.update(target_index(offsets.len(), offset_index), loop_offset(i, step))
    }
}

/// The path shown for a chain: `[[base]` followed by `+0x..]` per offset.
pub open spec fn path_text(offsets: Seq<i64>) -> Seq<char>
    decreases offsets.len(),
{
    if offsets.len() == 0 {
        "[[base]"@
    } else {
        path_text(offsets.drop_last()) + "+"@ + hex_text(bits_of(offsets.last())) + "]"@
    }
}

/// The offsets for iteration `i` of a scan.
pub fn scan_offsets(offsets: &[i64], offset_index: i32, i: u32, step: u32) -> (r: Vec<i64>)
    ensures
        r@ == iteration_offsets(offsets@, offset_index, i as int, step as int),
{
    assert((i as u64) * (step as u64) <= 0xFFFF_FFFFu64 * 0xFFFF_FFFFu64) by (nonlinear_arith)
        requires
            i <= 0xFFFF_FFFFu32,
            step <= 0xFFFF_FFFFu32,
    ;
    let product: u64 = (i as u64) * (step as u64);
    let current: i64 = if product > 9223372036854775807 {
        crate::memory::signed64(product)
    } else {
        product as i64
    };
    proof {
        crate::memory::lemma_pow_facts();
    }
    let mut modified: Vec<i64> = Vec::new();
    let mut k: usize = 0;
    while k < offsets.len()
        invariant
            k <= offsets.len(),
            modified@ == offsets@.take(k as int),
        decreases offsets.len() - k,
    {
        modified.push(offsets[k]);
        assert(offsets@.take(k + 1) =~= offsets@.take(k as int).push(offsets@[k as int]));
        k = k + 1;
    }
    assert(offsets@.take(offsets.len() as int) =~= offsets@);
    if modified.len() == 0 {
        modified.push(current);
        assert(modified@ =~= iteration_offsets(offsets@, offset_index, i as int, step as int));
    } else {
        let target = if offset_index < 0 || offset_index as usize >= modified.len() {
            modified.len() - 1
        } else {
            offset_index as usize
        };
        modified.set(target, current);
    }
    modified
}

/// The path shown for a chain of offsets.
pub fn offset_path(offsets: &[i64]) -> (r: String)
    ensures
        r@ == path_text(offsets@),
{
    let mut s = string_from("[[base]");
    let mut k: usize = 0;
    assert(offsets@.take(0) =~= Seq::<i64>::empty());
    while k < offsets.len()
        invariant
            k <= offsets.len(),
            s@ == path_text(offsets@.take(k as int)),
        decreases offsets.len() - k,
    {
        assert(offsets@.take(k + 1).drop_last() =~= offsets@.take(k as int));
        push_str(&mut s, "+");
        push_hex(&mut s, unsigned64(offsets[k]));
        push_str(&mut s, "]");
        assert(s@ =~= path_text(offsets@.take(k + 1)));
        k = k + 1;
    }
    assert(offsets@.take(offsets.len() as int) =~= offsets@);
    s
}

/// Copies the readings of a fresh read into `result` when that read is
/// valid; the label, path, type, address and validity of `result` stay.
pub fn refresh_readings(result: &mut TraversalResult, fresh: &TraversalResult)
    ensures
        final(result).label == old(result).label,
        final(result).offset_path == old(result).offset_path,
        final(result).selected_type == old(result).selected_type,
        final(result).actual_address == old(result).actual_address,
        final(result).valid == old(result).valid,
        fresh.valid ==> {
            &&& final(result).value_i8 == fresh.value_i8
            &&& final(result).value_i16 == fresh.value_i16
            &&& final(result).value_i32 == fresh.value_i32
            &&& final(result).value_i64 == fresh.value_i64
            &&& final(result).value_u8 == fresh.value_u8
            &&& final(result).value_u16 == fresh.value_u16
            &&& final(result).value_u32 == fresh.value_u32
            &&& final(result).value_u64 == fresh.value_u64
        },
        !fresh.valid ==> *final(result) == *old(result),
{
    if fresh.valid {
        result.value_i8 = fresh.value_i8;
        result.value_u8 = fresh.value_u8;
        result.value_i16 = fresh.value_i16;
        result.value_u16 = fresh.value_u16;
        result.value_i32 = fresh.value_i32;
        result.value_u32 = fresh.value_u32;
        result.value_i64 = fresh.value_i64;
        result.value_u64 = fresh.value_u64;
    }
}

/// A memory: the pointer stored at an address (`None` when unreadable).
pub type PointerMemory = spec_fn(u64) -> Option<u64>;

/// A memory: the eight bytes stored at an address (`None` when unreadable).
pub type ByteMemory = spec_fn(u64) -> Option<Seq<u8>>;

/// What a scan finds in iterations `0..n`, in the memories `mem` and
/// `bytes_at`: for each iteration whose chain leads to a readable address,
/// the address, the eight bytes there and the iteration's path.
pub open spec fn scan_hits(
    mem: PointerMemory,
    bytes_at: ByteMemory,
    base: u64,
    offsets: Seq<i64>,
    offset_index: i32,
    step: int,
    n: nat,
) -> Seq<(u64, Seq<u8>, Seq<char>)>
    decreases n,
{
    if n == 0 {
        Seq::empty()
    } else {
        let prev = scan_hits(mem, bytes_at, base, offsets, offset_index, step, (n - 1) as nat);
        let offs = iteration_offsets(offsets, offset_index, n - 1, step);
        match chain_target(mem, base, offs) {
            None => prev,
            Some(a) => match bytes_at(a) {
                None => prev,
                Some(b) => prev.push((a, b, path_text(offs))),
            },
        }
    }
}

/// `r` is the result for a hit: the bytes read at its address, labelled
/// with its path.
pub open spec fn result_for(r: TraversalResult, hit: (u64, Seq<u8>, Seq<char>)) -> bool {
    &&& r.label@ == Seq::<char>::empty()
    &&& r.offset_path@ == hit.2
    &&& r.selected_type@ == "i32"@
    &&& r.actual_address == hit.0
    &&& r.valid
    &&& reads_as(r, hit.1)
}

/// `rs` are the results for `hits`, in order.
pub open spec fn results_for(rs: Seq<TraversalResult>, hits: Seq<(u64, Seq<u8>, Seq<char>)>) -> bool {
    &&& rs.len() == hits.len()
    &&& forall|k: int| 0 <= k < rs.len() ==> result_for(#[trigger] rs[k], hits[k])
}

/// Every readable address holds eight bytes.
pub open spec fn eight_byte_reads(bytes_at: ByteMemory) -> bool {
    forall|a: u64| #[trigger] bytes_at(a) matches Some(b) ==> b.len() == 8
}

/// The pointer reads one iteration's chain asks for: one per offset, or
/// one when there are none.
pub open spec fn chain_reads(offsets: Seq<i64>) -> nat {
    if offsets.len() == 0 {
        1
    } else {
        offsets.len()
    }
}

/// Counting down `m` rounds of `k` reads: one round less is `k` fewer.
pub proof fn lemma_count_down(m: int, k: int)
    by (nonlinear_arith)
    requires
        m >= 1,
        k >= 0,
    ensures
        (m - 1) * k + k == m * k,
        (m - 1) * k >= 0,
{
}

/// What a scan asks for next.
#[derive(Clone, Copy, Debug, PartialEq, Eq, Structural)]
pub enum ScanStep {
    /// Read the pointer stored at this address and hand it to `on_pointer`.
    ReadPointer(u64),
    /// Read the eight bytes at this address and hand them to `on_value`.
    ReadValue(u64),
    /// The scan is over; its results are ready.
    Finished,
}

/// A memory traversal scan in progress.
pub struct MemoryScan {
    base: u64,
    offsets: Vec<i64>,
    offset_index: i32,
    step: u32,
    loop_count: u32,
    index: u32,
    chain: PointerChain,
    awaiting_value: bool,
    target: u64,
    path: String,
    results: Vec<TraversalResult>,
}

impl MemoryScan {
    /// The internal consistency every scan keeps.
    pub closed spec fn wf(self) -> bool {
        &&& self.index <= self.loop_count
        &&& self.index < self.loop_count && !self.awaiting_value ==> self.chain.wf()
            && !self.chain.finished() && self.chain.reads_left() <= chain_reads(self.offsets@)
    }

    /// The reads the scan still asks for: for each iteration left, its
    /// chain's pointer reads and one value read; of the current one, what
    /// remains.
    pub closed spec fn reads_left(self) -> nat {
        if self.index >= self.loop_count {
            0
        } else {
            ((self.loop_count - self.index - 1) * (chain_reads(self.offsets@) + 1) + (if self.awaiting_value {
                1
            } else {
                self.chain.reads_left() + 1
            })) as nat
        }
    }

    /// A scan asks for no more reads exactly when it is finished.
    pub proof fn lemma_finished_iff_no_reads(self)
        requires
            self.wf(),
        ensures
            self.finished() <==> self.reads_left() == 0,
    {
        if self.index < self.loop_count {
            lemma_count_down((self.loop_count - self.index) as int, (chain_reads(self.offsets@) + 1) as int);
        }
    }

    /// The iterations done so far.
    pub closed spec fn done(self) -> nat {
        self.index as nat
    }

    /// Whether all iterations are done.
    pub closed spec fn finished(self) -> bool {
        self.index >= self.loop_count
    }

    /// Whether the scan waits for the bytes of its current address (else
    /// for a pointer of its current chain).
    pub closed spec fn awaits_value(self) -> bool {
        self.awaiting_value
    }

    /// The address the scan waits on.
    pub closed spec fn pending(self) -> u64 {
        if self.awaiting_value {
            self.target
        } else {
            self.chain.pending()
        }
    }

    /// The results so far.
    pub closed spec fn results(self) -> Seq<TraversalResult> {
        self.results@
    }

    /// What the whole scan finds in the memories `mem` and `bytes_at`.
    pub closed spec fn expected(self, mem: PointerMemory, bytes_at: ByteMemory) -> Seq<
        (u64, Seq<u8>, Seq<char>),
    > {
        scan_hits(
            mem,
            bytes_at,
            self.base,
            self.offsets@,
            self.offset_index,
            self.step as int,
            self.loop_count as nat,
        )
    }

    /// The scan so far agrees with the memories `mem` and `bytes_at`: its
    /// results are those of the iterations done, and the current iteration
    /// is on its way to where its chain leads.
    pub closed spec fn consistent(self, mem: PointerMemory, bytes_at: ByteMemory) -> bool {
        &&& self.index <= self.loop_count
        &&& results_for(
            self.results@,
            scan_hits(
                mem,
                bytes_at,
                self.base,
                self.offsets@,
                self.offset_index,
                self.step as int,
                self.index as nat,
            ),
        )
        &&& self.index < self.loop_count ==> {
            let offs = iteration_offsets(
                self.offsets@,
                self.offset_index,
                self.index as int,
                self.step as int,
            );
            &&& self.path@ == path_text(offs)
            &&& if self.awaiting_value {
                Some(self.target) == chain_target(mem, self.base, offs)
            } else {
                &&& self.chain.wf()
                &&& !self.chain.finished()
                &&& self.chain.remaining_target(mem) == chain_target(mem, self.base, offs)
            }
        }
    }

    /// The step a scan in this state asks for.
    pub open spec fn next_step(self) -> ScanStep {
        if self.finished() {
            ScanStep::Finished
        } else if self.awaits_value() {
            ScanStep::ReadValue(self.pending())
        } else {
            ScanStep::ReadPointer(self.pending())
        }
    }

    fn begin_iteration(&mut self)
        requires
            old(self).index < old(self).loop_count,
        ensures
            final(self).base == old(self).base,
            final(self).offsets == old(self).offsets,
            final(self).offset_index == old(self).offset_index,
            final(self).step == old(self).step,
            final(self).loop_count == old(self).loop_count,
            final(self).index == old(self).index,
            final(self).results == old(self).results,
            !final(self).awaiting_value,
            final(self).chain.wf(),
            !final(self).chain.finished(),
            final(self).chain.pending() == old(self).base,
            final(self).chain.reads_left() == chain_reads(old(self).offsets@),
            ({
                let offs = iteration_offsets(
                    old(self).offsets@,
                    old(self).offset_index,
                    old(self).index as int,
                    old(self).step as int,
                );
                &&& final(self).path@ == path_text(offs)
                &&& forall|mem: PointerMemory| #[trigger] final(self).chain.remaining_target(mem)
                    == chain_target(mem, old(self).base, offs)
            }),
    {
        let offs = scan_offsets(self.offsets.as_slice(), self.offset_index, self.index, self.step);
        let ghost offs_view = offs@;
        self.path = offset_path(offs.as_slice());
        let (chain, _first) = PointerChain::start(self.base, offs);
        self.chain = chain;
        self.awaiting_value = false;
        proof {
            assert forall|mem: PointerMemory| #[trigger] self.chain.remaining_target(mem)
                == chain_target(mem, self.base, offs_view) by {
                crate::chain::lemma_start_leads_to_target(self.chain, self.base, offs_view, mem);
            }
        }
    }

    /// Starts a scan of `loop_count` iterations from `base`; iteration `i`
    /// replaces the offset at `offset_index` (the last one when it names
    /// none) with `i * step`.
    pub fn start(base: u64, offsets: Vec<i64>, loop_count: u32, step: u32, offset_index: i32) -> (r: (
        MemoryScan,
        ScanStep,
    ))
        ensures
            r.0.wf(),
            r.0.done() == 0,
            r.0.results() == Seq::<TraversalResult>::empty(),
            r.0.reads_left() == loop_count * (chain_reads(offsets@) + 1),
            r.1 == r.0.next_step(),
            loop_count == 0 <==> r.0.finished(),
            forall|mem: PointerMemory, bytes_at: ByteMemory| #[trigger]
                r.0.consistent(mem, bytes_at),
            forall|mem: PointerMemory, bytes_at: ByteMemory| #[trigger]
                r.0.expected(mem, bytes_at) == scan_hits(
                    mem,
                    bytes_at,
                    base,
                    offsets@,
                    offset_index,
                    step as int,
                    loop_count as nat,
                ),
    {
        let (chain, _first) = PointerChain::start(base, Vec::new());
        let mut scan = MemoryScan {
            base,
            offsets,
            offset_index,
            step,
            loop_count,
            index: 0,
            chain,
            awaiting_value: false,
            target: 0,
            path: String::new(),
            results: Vec::new(),
        };
        if loop_count > 0 {
            scan.begin_iteration();
        }
        let step = if loop_count == 0 {
            ScanStep::Finished
        } else {
            ScanStep::ReadPointer(base)
        };
        proof {
            assert forall|mem: PointerMemory, bytes_at: ByteMemory| #[trigger]
                scan.consistent(mem, bytes_at) by {
                assert(scan.results@ =~= Seq::<TraversalResult>::empty());
            }
            if loop_count > 0 {
                lemma_count_down(loop_count as int, (chain_reads(offsets@) + 1) as int);
            } else {
                assert(0 * (chain_reads(offsets@) + 1) == 0);
            }
        }
        (scan, step)
    }

    fn finish_iteration(&mut self)
        requires
            old(self).index < old(self).loop_count,
        ensures
            final(self).base == old(self).base,
            final(self).offsets == old(self).offsets,
            final(self).offset_index == old(self).offset_index,
            final(self).step == old(self).step,
            final(self).loop_count == old(self).loop_count,
            final(self).index == old(self).index + 1,
            final(self).results == old(self).results,
            final(self).index < final(self).loop_count ==> {
                let offs = iteration_offsets(
                    final(self).offsets@,
                    final(self).offset_index,
                    final(self).index as int,
                    final(self).step as int,
                );
                &&& !final(self).awaiting_value
                &&& final(self).chain.wf()
                &&& !final(self).chain.finished()
                &&& final(self).chain.pending() == final(self).base
                &&& final(self).chain.reads_left() == chain_reads(final(self).offsets@)
                &&& final(self).path@ == path_text(offs)
                &&& forall|mem: PointerMemory| #[trigger] final(self).chain.remaining_target(mem)
                    == chain_target(mem, final(self).base, offs)
            },
    {
        self.index = self.index + 1;
        if self.index < self.loop_count {
            self.begin_iteration();
        }
    }

    /// Takes the pointer read at the awaited address (`None` when the read
    /// failed) and says what comes next.  Whenever the scan agreed with
    /// memories that hold this pointer there, it still does.
    pub fn on_pointer(&mut self, pointer: Option<u64>) -> (step: ScanStep)
        requires
            old(self).wf(),
            !old(self).finished(),
            !old(self).awaits_value(),
        ensures
            final(self).wf(),
            step == final(self).next_step(),
            final(self).results() == old(self).results(),
            final(self).done() == old(self).done() || final(self).done() == old(self).done() + 1,
            final(self).reads_left() < old(self).reads_left(),
            forall|mem: PointerMemory, bytes_at: ByteMemory|
                #![trigger final(self).consistent(mem, bytes_at)]
                old(self).consistent(mem, bytes_at) && pointer == mem(old(self).pending())
                    ==> final(self).consistent(mem, bytes_at),
            forall|mem: PointerMemory, bytes_at: ByteMemory| #[trigger]
                final(self).expected(mem, bytes_at) == old(self).expected(mem, bytes_at),
    {
        let ghost pre = *self;
        let ghost chain_pre = self.chain;
        let s = self.chain.resume(pointer);
        let ghost chain_post = self.chain;
        let ghost k = (chain_reads(pre.offsets@) + 1) as int;
        let ghost m = (pre.loop_count - pre.index) as int;
        proof {
            lemma_count_down(m, k);
            if m >= 2 {
                lemma_count_down(m - 1, k);
            }
        }
        match s {
            ChainStep::Read(a) => {
                proof {
                    assert forall|mem: PointerMemory, bytes_at: ByteMemory|
                        #![trigger self.consistent(mem, bytes_at)]
                        pre.consistent(mem, bytes_at) && pointer == mem(pre.pending())
                            implies self.consistent(mem, bytes_at) by {
                        crate::chain::lemma_resume_follows_memory(chain_pre, chain_post, s, mem);
                    }
                }
                ScanStep::ReadPointer(a)
            },
            ChainStep::Done(None) => {
                let ghost offs = iteration_offsets(
                    pre.offsets@,
                    pre.offset_index,
                    pre.index as int,
                    pre.step as int,
                );
                self.finish_iteration();
                proof {
                    assert forall|mem: PointerMemory, bytes_at: ByteMemory|
                        #![trigger self.consistent(mem, bytes_at)]
                        pre.consistent(mem, bytes_at) && pointer == mem(pre.pending())
                            implies self.consistent(mem, bytes_at) by {
                        crate::chain::lemma_resume_follows_memory(chain_pre, chain_post, s, mem);
                        assert(chain_target(mem, pre.base, offs) is None);
                    }
                }
                self.next_step_exec()
            },
            ChainStep::Done(Some(a)) => {
                self.awaiting_value = true;
                self.target = a;
                proof {
                    assert forall|mem: PointerMemory, bytes_at: ByteMemory|
                        #![trigger self.consistent(mem, bytes_at)]
                        pre.consistent(mem, bytes_at) && pointer == mem(pre.pending())
                            implies self.consistent(mem, bytes_at) by {
                        crate::chain::lemma_resume_follows_memory(chain_pre, chain_post, s, mem);
                    }
                }
                ScanStep::ReadValue(a)
            },
        }
    }

    /// Takes the eight bytes read at the awaited address (`None` when the
    /// read failed), keeps a result when they were read, and says what
    /// comes next.  Whenever the scan agreed with memories that hold these
    /// bytes there, it still does.
    pub fn on_value(&mut self, bytes: Option<&[u8]>) -> (step: ScanStep)
        requires
            old(self).wf(),
            !old(self).finished(),
            old(self).awaits_value(),
            bytes matches Some(b) ==> b@.len() == 8,
        ensures
            final(self).wf(),
            step == final(self).next_step(),
            final(self).done() == old(self).done() + 1,
            final(self).reads_left() < old(self).reads_left(),
            forall|mem: PointerMemory, bytes_at: ByteMemory|
                #![trigger final(self).consistent(mem, bytes_at)]
                old(self).consistent(mem, bytes_at) && eight_byte_reads(bytes_at) && bytes_at(
                    old(self).pending(),
                ) == (match bytes {
                    Some(b) => Some(b@),
                    None => None,
                }) ==> final(self).consistent(mem, bytes_at),
            forall|mem: PointerMemory, bytes_at: ByteMemory| #[trigger]
                final(self).expected(mem, bytes_at) == old(self).expected(mem, bytes_at),
    {
        let ghost pre = *self;
        let ghost offs = iteration_offsets(
            pre.offsets@,
            pre.offset_index,
            pre.index as int,
            pre.step as int,
        );
        let ghost k = (chain_reads(pre.offsets@) + 1) as int;
        let ghost m = (pre.loop_count - pre.index) as int;
        proof {
            lemma_count_down(m, k);
            if m >= 2 {
                lemma_count_down(m - 1, k);
            }
        }
        let mut result = crate::memory::traversal_result_at(self.target, bytes);
        if result.valid {
            result.offset_path = self.path.clone();
            self.results.push(result);
        }
        self.finish_iteration();
        proof {
            assert forall|mem: PointerMemory, bytes_at: ByteMemory|
                #![trigger self.consistent(mem, bytes_at)]
                pre.consistent(mem, bytes_at) && eight_byte_reads(bytes_at) && bytes_at(pre.pending())
                    == (match bytes {
                    Some(b) => Some(b@),
                    None => None,
                }) implies self.consistent(mem, bytes_at) by {
                let prev = scan_hits(
                    mem,
                    bytes_at,
                    pre.base,
                    pre.offsets@,
                    pre.offset_index,
                    pre.step as int,
                    pre.index as nat,
                );
                let now = scan_hits(
                    mem,
                    bytes_at,
                    pre.base,
                    pre.offsets@,
                    pre.offset_index,
                    pre.step as int,
                    (pre.index + 1) as nat,
                );
                match bytes {
                    Some(b) => {
                        assert(now == prev.push((pre.target, b@, path_text(offs))));
                        assert(self.results@ == pre.results@.push(result));
                        assert forall|k: int| 0 <= k < self.results@.len() implies result_for(
                            #[trigger] self.results@[k],
                            now[k],
                        ) by {
                            if k < pre.results@.len() {
                                assert(self.results@[k] == pre.results@[k]);
                            }
                        }
                    },
                    None => {
                        assert(now == prev);
                    },
                }
            }
        }
        self.next_step_exec()
    }

    fn next_step_exec(&self) -> (s: ScanStep)
        ensures
            s == self.next_step(),
    {
        if self.index >= self.loop_count {
            ScanStep::Finished
        } else if self.awaiting_value {
            ScanStep::ReadValue(self.target)
        } else {
            ScanStep::ReadPointer(self.chain.pending_address())
        }
    }

    /// The iterations done so far.
    pub fn iterations_done(&self) -> (r: u32)
        ensures
            r as nat == self.done(),
    {
        self.index
    }

    /// The results of the scan.  When the scan is finished and agreed with
    /// the memories throughout, they are the results for all its hits.
    pub fn into_results(self) -> (r: Vec<TraversalResult>)
        ensures
            r@ == self.results(),
            forall|mem: PointerMemory, bytes_at: ByteMemory|
                #![trigger self.consistent(mem, bytes_at)]
                self.finished() && self.consistent(mem, bytes_at) ==> results_for(
                    r@,
                    self.expected(mem, bytes_at),
                ),
    {
        proof {
            assert forall|mem: PointerMemory, bytes_at: ByteMemory|
                #![trigger self.consistent(mem, bytes_at)]
                self.finished() && self.consistent(mem, bytes_at) implies results_for(
                    self.results@,
                    self.expected(mem, bytes_at),
                ) by {
                assert(self.index == self.loop_count);
            }
        }
        self.results
    }
}


/// How many of iterations `0..n` lead, in `mem`, to an address whose bytes
/// `bytes_at` can read.
pub open spec fn readable_iterations(
    mem: PointerMemory,
    bytes_at: ByteMemory,
    base: u64,
    offsets: Seq<i64>,
    offset_index: i32,
    step: int,
    n: nat,
) -> nat
    decreases n,
{
    if n == 0 {
        0
    } else {
        readable_iterations(mem, bytes_at, base, offsets, offset_index, step, (n - 1) as nat) + match chain_target(
            mem,
            base,
            iteration_offsets(offsets, offset_index, n - 1, step),
        ) {
            Some(a) => if bytes_at(a) is Some {
                1nat
            } else {
                0nat
            },
            None => 0nat,
        }
    }
}

/// Every iteration whose chain leads to a readable address gives exactly
/// one hit, whatever the bytes read there: as many hits as readable
/// iterations.
pub proof fn law_one_hit_per_readable_iteration(
    mem: PointerMemory,
    bytes_at: ByteMemory,
    base: u64,
    offsets: Seq<i64>,
    offset_index: i32,
    step: int,
    n: nat,
)
    ensures
        scan_hits(mem, bytes_at, base, offsets, offset_index, step, n).len() == readable_iterations(
            mem,
            bytes_at,
            base,
            offsets,
            offset_index,
            step,
            n,
        ),
    decreases n,
{
    if n > 0 {
        law_one_hit_per_readable_iteration(mem, bytes_at, base, offsets, offset_index, step, (n - 1) as nat);
    }
}

/// The hits' addresses and paths do not depend on the values read: two
/// byte memories readable at the same addresses give the same addresses
/// and paths, in the same order, each with the bytes its memory holds
/// there.
pub proof fn law_hits_ignore_values(
    mem: PointerMemory,
    b1: ByteMemory,
    b2: ByteMemory,
    base: u64,
    offsets: Seq<i64>,
    offset_index: i32,
    step: int,
    n: nat,
)
    requires
        forall|a: u64| (#[trigger] b1(a)) is Some <==> b2(a) is Some,
    ensures
        ({
            let h1 = scan_hits(mem, b1, base, offsets, offset_index, step, n);
            let h2 = scan_hits(mem, b2, base, offsets, offset_index, step, n);
            &&& h1.len() == h2.len()
            &&& forall|k: int| 0 <= k < h1.len() ==> (#[trigger] h1[k]).0 == h2[k].0 && h1[k].2 == h2[k].2
                && b1(h1[k].0) == Some(h1[k].1) && b2(h2[k].0) == Some(h2[k].1)
        }),
    decreases n,
{
    if n > 0 {
        law_hits_ignore_values(mem, b1, b2, base, offsets, offset_index, step, (n - 1) as nat);
        let offs = iteration_offsets(offsets, offset_index, n - 1, step);
        let h1p = scan_hits(mem, b1, base, offsets, offset_index, step, (n - 1) as nat);
        let h2p = scan_hits(mem, b2, base, offsets, offset_index, step, (n - 1) as nat);
        let h1 = scan_hits(mem, b1, base, offsets, offset_index, step, n);
        let h2 = scan_hits(mem, b2, base, offsets, offset_index, step, n);
        match chain_target(mem, base, offs) {
            None => {},
            Some(a) => {
                if b1(a) is Some {
                    assert(b2(a) is Some);
                    assert forall|k: int| 0 <= k < h1.len() implies (#[trigger] h1[k]).0 == h2[k].0 && h1[k].2
                        == h2[k].2 && b1(h1[k].0) == Some(h1[k].1) && b2(h2[k].0) == Some(h2[k].1) by {
                        if k < h1p.len() {
                            assert(h1[k] == h1p[k]);
                            assert(h2[k] == h2p[k]);
                        }
                    }
                } else {
                    assert(b2(a) is None);
                }
            },
        }
    }
}

} // verus!
