//! Following a pointer chain: `[[[base]+a]+b]+c`.  The pointer reads happen
//! outside the library; `PointerChain` decides, from each pointer read, the
//! next address to read or the final address.

use vstd::prelude::*;

verus! {

/// `address + offset` in the 64-bit address space, wrapping around at its
/// ends as two's complement arithmetic does.
pub open spec fn add_offset(address: u64, offset: i64) -> u64 {
    ((address as int + offset as int) % 0x1_0000_0000_0000_0000) as u64
}

/// From `address`, read a pointer and add the next offset, once per
/// offset; `None` when a read fails.
pub open spec fn follow(mem: spec_fn(u64) -> Option<u64>, address: u64, offsets: Seq<i64>) -> Option<
    u64,
>
    decreases offsets.len(),
{
    if offsets.len() == 0 {
        Some(address)
    } else {
        match mem(address) {
            None => None,
            Some(p) => follow(mem, add_offset(p, offsets[0]), offsets.drop_first()),
        }
    }
}

/// The address a chain leads to in the memory `mem` (the pointer stored at
/// an address, or `None` where none can be read): with no offsets, the
/// pointer stored at `base`; otherwise one dereference per offset, the
/// offset added after each, and no dereference after the last.
pub open spec fn chain_target(mem: spec_fn(u64) -> Option<u64>, base: u64, offsets: Seq<i64>) -> Option<
    u64,
> {
    if offsets.len() == 0 {
        mem(base)
    } else {
        follow(mem, base, offsets)
    }
}

/// What the chain asks for next.
#[derive(Clone, Copy, Debug, PartialEq, Eq, Structural)]
pub enum ChainStep {
    /// Read the pointer stored at this address and hand it to `resume`.
    Read(u64),
    /// The chain is followed: the final address, or `None` when a pointer
    /// could not be read.
    Done(Option<u64>),
}

/// A pointer chain being followed.
pub struct PointerChain {
    offsets: Vec<i64>,
    next: usize,
    address: u64,
    finished: bool,
}

impl PointerChain {
    /// The offsets of the chain.
    pub closed spec fn offsets(self) -> Seq<i64> {
        self.offsets@
    }

    /// How many offsets have been applied.
    pub closed spec fn applied(self) -> nat {
        self.next as nat
    }

    /// The address whose pointer is awaited.
    pub closed spec fn pending(self) -> u64 {
        self.address
    }

    /// Whether the chain has reached its end.
    pub closed spec fn finished(self) -> bool {
        self.finished
    }

    /// The internal consistency every chain keeps.
    pub closed spec fn wf(self) -> bool {
        &&& self.next <= self.offsets@.len()
        &&& self.offsets@.len() == 0 ==> self.next == 0
        &&& !self.finished && self.offsets@.len() > 0 ==> self.next < self.offsets@.len()
    }

    /// How many pointer reads the chain still asks for, at most.
    pub open spec fn reads_left(self) -> nat {
        if self.finished() {
            0
        } else if self.offsets().len() == 0 {
            1
        } else {
            (self.offsets().len() - self.applied()) as nat
        }
    }

    /// Where the rest of the chain leads in `mem`, from the awaited read on.
    pub open spec fn remaining_target(self, mem: spec_fn(u64) -> Option<u64>) -> Option<u64> {
        if self.offsets().len() == 0 {
            mem(self.pending())
        } else {
            follow(mem, self.pending(), self.offsets().skip(self.applied() as int))
        }
    }

    /// `post` and `step` are what `resume` gives when `pre` receives
    /// `pointer`.
    pub open spec fn resumed(pre: PointerChain, pointer: Option<u64>, post: PointerChain, step: ChainStep) -> bool {
        &&& post.offsets() == pre.offsets()
        &&& if pre.offsets().len() == 0 {
            &&& step == ChainStep::Done(pointer)
            &&& post.finished()
            &&& post.applied() == pre.applied()
        } else {
            match pointer {
                None => step == ChainStep::Done(None) && post.finished() && post.applied()
                    == pre.applied(),
                Some(p) => {
                    let a = add_offset(p, pre.offsets()[pre.applied() as int]);
                    &&& post.applied() == pre.applied() + 1
                    &&& post.pending() == a
                    &&& if post.applied() == pre.offsets().len() {
                        step == ChainStep::Done(Some(a)) && post.finished()
                    } else {
                        step == ChainStep::Read(a) && !post.finished()
                    }
                },
            }
        }
    }

    /// The address whose pointer is awaited.
    pub fn pending_address(&self) -> (r: u64)
        ensures
            r == self.pending(),
    {
        self.address
    }

    /// Starts following the chain from `base`; the first step always reads
    /// the pointer stored at `base`.
    pub fn start(base: u64, offsets: Vec<i64>) -> (r: (PointerChain, ChainStep))
        ensures
            r.0.wf(),
            r.0.offsets() == offsets@,
            r.0.applied() == 0,
            r.0.pending() == base,
            !r.0.finished(),
            r.1 == ChainStep::Read(base),
    {
        (PointerChain { offsets, next: 0, address: base, finished: false }, ChainStep::Read(base))
    }

    /// Takes the pointer read at the awaited address (`None` when the read
    /// failed) and says what comes next.
    pub fn resume(&mut self, pointer: Option<u64>) -> (step: ChainStep)
        requires
            old(self).wf(),
            !old(self).finished(),
        ensures
            final(self).wf(),
            Self::resumed(*old(self), pointer, *final(self), step),
            final(self).reads_left() < old(self).reads_left(),
    {
        if self.offsets.len() == 0 {
            self.finished = true;
            return ChainStep::Done(pointer);
        }
        match pointer {
            None => {
                self.finished = true;
                ChainStep::Done(None)
            },
            Some(p) => {
                let a = p.wrapping_add_signed(self.offsets[self.next]);
                self.address = a;
                self.next = self.next + 1;
                if self.next == self.offsets.len() {
                    self.finished = true;
                    ChainStep::Done(Some(a))
                } else {
                    ChainStep::Read(a)
                }
            },
        }
    }
}

/// A chain that was just started leads where the chain leads.
pub proof fn lemma_start_leads_to_target(
    chain: PointerChain,
    base: u64,
    offsets: Seq<i64>,
    mem: spec_fn(u64) -> Option<u64>,
)
    requires
        chain.offsets() == offsets,
        chain.applied() == 0,
        chain.pending() == base,
    ensures
        chain.remaining_target(mem) == chain_target(mem, base, offsets),
{
    assert(offsets.skip(0) =~= offsets);
}

/// Answering each read from the memory `mem` keeps the chain on its way:
/// a `Done` step carries where the rest of the chain leads, and a `Read`
/// step asks for the address from which the rest leads to the same place.
/// With `lemma_start_leads_to_target`, a chain answered from `mem` ends in
/// `chain_target(mem, base, offsets)`.
pub proof fn lemma_resume_follows_memory(
    pre: PointerChain,
    post: PointerChain,
    step: ChainStep,
    mem: spec_fn(u64) -> Option<u64>,
)
    requires
        pre.wf(),
        !pre.finished(),
        PointerChain::resumed(pre, mem(pre.pending()), post, step),
    ensures
        match step {
            ChainStep::Done(r) => r == pre.remaining_target(mem),
            ChainStep::Read(a) => a == post.pending() && post.remaining_target(mem)
                == pre.remaining_target(mem),
        },
{
    if pre.offsets().len() > 0 {
        let rest = pre.offsets().skip(pre.applied() as int);
        assert(rest.len() > 0);
        assert(rest[0] == pre.offsets()[pre.applied() as int]);
        assert(rest.drop_first() =~= pre.offsets().skip(pre.applied() + 1int));
        if post.applied() == pre.offsets().len() {
            assert(rest.drop_first() =~= Seq::<i64>::empty());
        }
    }
}

/// The number of pointer reads a chain asks for is the number of offsets,
/// or one when there are none.
pub proof fn lemma_reads_per_chain(chain: PointerChain, base: u64, offsets: Seq<i64>)
    requires
        chain.offsets() == offsets,
        chain.applied() == 0,
        !chain.finished(),
    ensures
        chain.reads_left() == if offsets.len() == 0 {
            1
        } else {
            offsets.len()
        },
{
}


/// One more step after `follow`: read the pointer at the address reached
/// and add `o`.
pub open spec fn then_read(mem: spec_fn(u64) -> Option<u64>, reached: Option<u64>, o: i64) -> Option<u64> {
    match reached {
        None => None,
        Some(a) => match mem(a) {
            None => None,
            Some(p) => Some(add_offset(p, o)),
        },
    }
}

proof fn lemma_follow_push(mem: spec_fn(u64) -> Option<u64>, address: u64, offsets: Seq<i64>, o: i64)
    ensures
        follow(mem, address, offsets.push(o)) == then_read(mem, follow(mem, address, offsets), o),
    decreases offsets.len(),
{
    let ext = offsets.push(o);
    assert(ext.len() > 0);
    if offsets.len() == 0 {
        assert(ext[0] == o);
        assert(ext.drop_first() =~= Seq::<i64>::empty());
        assert(follow(mem, address, offsets) == Some(address));
        match mem(address) {
            None => {
                assert(follow(mem, address, ext) == None::<u64>);
            },
            Some(p) => {
                assert(follow(mem, add_offset(p, o), ext.drop_first()) == Some(add_offset(p, o)));
                assert(follow(mem, address, ext) == Some(add_offset(p, o)));
            },
        }
    } else {
        assert(ext[0] == offsets[0]);
        assert(ext.drop_first() =~= offsets.drop_first().push(o));
        match mem(address) {
            None => {
                assert(follow(mem, address, ext) == None::<u64>);
                assert(follow(mem, address, offsets) == None::<u64>);
            },
            Some(p) => {
                lemma_follow_push(mem, add_offset(p, offsets[0]), offsets.drop_first(), o);
                assert(follow(mem, address, ext) == follow(mem, add_offset(p, offsets[0]), ext.drop_first()));
            },
        }
    }
}

/// Extending a chain by one offset reads the pointer at the old chain's
/// target and adds the new offset to it.
pub proof fn law_chain_extend(mem: spec_fn(u64) -> Option<u64>, base: u64, offsets: Seq<i64>, o: i64)
    requires
        offsets.len() > 0,
    ensures
        chain_target(mem, base, offsets.push(o)) == then_read(mem, chain_target(mem, base, offsets), o),
{
    lemma_follow_push(mem, base, offsets, o);
}

} // verus!
