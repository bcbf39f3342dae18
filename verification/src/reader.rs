//! The window of reads that one reader worker keeps in flight.
//!
//! A worker owns a fixed number of buffer slots. It submits a read for
//! every slot, each at an offset claimed from the shared cursor, waits for
//! any of them to complete, sends the bytes on with their position, and
//! submits the slot again unless the source has ended there. This module
//! holds the worker's decisions; the reads themselves are the caller's.

use std::sync::atomic::AtomicU64;
use vstd::prelude::*;

use crate::cursor::claim;
use crate::error::Error;

verus! {

/// What a reader worker is started with.
#[derive(Debug, Clone, Copy)]
pub struct RunContext {
    /// Number of worker threads.
    pub nb_threads: usize,
    /// This worker's number, from 0.
    pub thread_id: usize,
    /// Size of a block in bytes.
    pub block_size: usize,
    /// Number of buffer slots, which is the number of reads in flight.
    pub num_buffers: usize,
}

/// The state of one buffer slot.
#[derive(Debug, Clone, Copy, PartialEq, Eq, Structural)]
pub enum Slot {
    /// The buffer is with the worker and can be submitted.
    Free,
    /// A read into the buffer is in flight at this offset.
    InFlight(u64),
    /// The source ended in this slot; it is not used again.
    Retired,
}

/// What to do when a read has completed.
#[derive(Debug, Clone, Copy, PartialEq, Eq, Structural)]
pub struct Completion {
    /// The position under which the bytes read are sent on, if any were
    /// read.
    pub position: Option<u64>,
    /// Whether the slot is to be submitted again at a newly claimed offset.
    pub resubmit: bool,
}

/// The position of the block at `offset`.
pub open spec fn position_of(offset: int, block_size: int) -> int {
    offset / block_size
}

/// The decision on a read of `n` bytes at `offset`: bytes that were read
/// are sent on under the position of the offset claimed for this read, and
/// only a full block is followed by another read.
pub open spec fn completion_of(offset: u64, n: usize, block_size: usize) -> Completion {
    Completion {
        position: if n > 0 {
            Some(position_of(offset as int, block_size as int) as u64)
        } else {
            None
        },
        resubmit: n == block_size,
    }
}

/// The state in which a completed read of `n` bytes leaves its slot.
pub open spec fn slot_after(n: usize, block_size: usize) -> Slot {
    if n == block_size {
        Slot::Free
    } else {
        Slot::Retired
    }
}

/// The decision on a read of `n` bytes at `offset`.
pub fn decide(offset: u64, n: usize, block_size: usize) -> (c: Completion)
    requires
        block_size > 0,
    ensures
        c == completion_of(offset, n, block_size),
{
    Completion {
        position: if n > 0 {
            Some(offset / (block_size as u64))
        } else {
            None
        },
        resubmit: n == block_size,
    }
}

/// The number of slots of `slots` that are not free: those with a read in
/// flight and those retired.
pub open spec fn taken(slots: Seq<Slot>) -> nat
    decreases slots.len(),
{
    if slots.len() == 0 {
        0
    } else {
        taken(slots.drop_last()) + if slots.last() is Free {
            0nat
        } else {
            1nat
        }
    }
}

/// Setting one slot changes the count by that slot alone.
pub proof fn lemma_taken_update(slots: Seq<Slot>, i: int, slot: Slot)
    requires
        0 <= i < slots.len(),
    ensures
        taken(slots.update(i, slot)) + (if slots[i] is Free {
            0nat
        } else {
            1nat
        }) == taken(slots) + (if slot is Free {
            0nat
        } else {
            1nat
        }),
    decreases slots.len(),
{
    let updated = slots.update(i, slot);
    if i == slots.len() - 1 {
        assert(updated.drop_last() =~= slots.drop_last());
    } else {
        assert(updated.drop_last() =~= slots.drop_last().update(i, slot));
        lemma_taken_update(slots.drop_last(), i, slot);
    }
}

/// Where no slot is free, all are taken; where all are free, none is.
pub proof fn lemma_taken_bounds(slots: Seq<Slot>)
    ensures
        taken(slots) <= slots.len(),
        (forall|i: int| 0 <= i < slots.len() ==> !(#[trigger] slots[i] is Free)) ==> taken(slots)
            == slots.len(),
        (forall|i: int| 0 <= i < slots.len() ==> #[trigger] slots[i] is Free) ==> taken(slots)
            == 0,
    decreases slots.len(),
{
    if slots.len() > 0 {
        let before = slots.drop_last();
        lemma_taken_bounds(before);
        if forall|i: int| 0 <= i < slots.len() ==> !(#[trigger] slots[i] is Free) {
            assert forall|i: int| 0 <= i < before.len() implies !(#[trigger] before[i] is Free) by {
                assert(before[i] == slots[i]);
            }
            assert(!(slots[slots.len() - 1] is Free));
        }
        if forall|i: int| 0 <= i < slots.len() ==> #[trigger] slots[i] is Free {
            assert forall|i: int| 0 <= i < before.len() implies #[trigger] before[i] is Free by {
                assert(before[i] == slots[i]);
            }
            assert(slots[slots.len() - 1] is Free);
        }
    }
}

/// One worker's window of reads.
pub struct Worker {
    block_size: usize,
    slots: Vec<Slot>,
    claims: Ghost<nat>,
    full_reads: Ghost<nat>,
}

impl Worker {
    /// The block size.
    pub closed spec fn block_size(&self) -> usize {
        self.block_size
    }

    /// The slots, first to last.
    pub closed spec fn slots(&self) -> Seq<Slot> {
        self.slots@
    }

    /// The number of reads submitted so far, each at an offset claimed for
    /// it.
    pub closed spec fn claims(&self) -> nat {
        self.claims@
    }

    /// The number of reads so far that brought a full block.
    pub closed spec fn full_reads(&self) -> nat {
        self.full_reads@
    }

    /// The block size is not zero, and the claims are accounted for: one
    /// for every full block read, after which the slot was free again, and
    /// one for every slot that is in flight or retired.
    pub open spec fn wf(&self) -> bool {
        &&& self.block_size() > 0
        &&& self.claims() == self.full_reads() + taken(self.slots())
    }

    /// Every slot is retired: the worker is done.
    pub open spec fn retired(&self) -> bool {
        forall|i: int| 0 <= i < self.slots().len() ==> #[trigger] self.slots()[i] is Retired
    }

    /// No read is in flight.
    pub open spec fn idle(&self) -> bool {
        forall|i: int| 0 <= i < self.slots().len() ==> !(#[trigger] self.slots()[i] is InFlight)
    }

    /// A worker with `ctx.num_buffers` free slots.
    pub fn new(ctx: &RunContext) -> (w: Worker)
        requires
            ctx.block_size > 0,
        ensures
            w.wf(),
            w.block_size() == ctx.block_size,
            w.slots() == Seq::new(ctx.num_buffers as nat, |i: int| Slot::Free),
            w.claims() == 0,
            w.full_reads() == 0,
    {
        let mut slots: Vec<Slot> = Vec::with_capacity(ctx.num_buffers);
        let mut i: usize = 0;
        while i < ctx.num_buffers
            invariant
                i <= ctx.num_buffers,
                slots@ == Seq::new(i as nat, |j: int| Slot::Free),
            decreases ctx.num_buffers - i,
        {
            slots.push(Slot::Free);
            i += 1;
        }
        proof {
            lemma_taken_bounds(slots@);
        }
        Worker { block_size: ctx.block_size, slots, claims: Ghost(0), full_reads: Ghost(0) }
    }

    /// The number of slots.
    pub fn num_buffers(&self) -> (n: usize)
        ensures
            n == self.slots().len(),
    {
        self.slots.len()
    }

    /// The state of slot `slot`, if there is such a slot.
    pub fn slot(&self, slot: usize) -> (s: Option<Slot>)
        ensures
            s == if slot < self.slots().len() {
                Some(self.slots()[slot as int])
            } else {
                None
            },
    {
        if slot < self.slots.len() {
            Some(self.slots[slot])
        } else {
            None
        }
    }

    /// Records that a read into slot `slot` was submitted at `offset`. The
    /// slot must be free: one that is in flight, retired or not there at all
    /// gives `ExhaustedPool` and changes nothing.
    pub fn submit(&mut self, slot: usize, offset: u64) -> (r: Result<(), Error>)
        requires
            old(self).wf(),
        ensures
            final(self).wf(),
            final(self).block_size() == old(self).block_size(),
            final(self).full_reads() == old(self).full_reads(),
            slot < old(self).slots().len() && old(self).slots()[slot as int] is Free ==> r is Ok
                && final(self).slots() == old(self).slots().update(
                slot as int,
                Slot::InFlight(offset),
            ) && final(self).claims() == old(self).claims() + 1,
            !(slot < old(self).slots().len() && old(self).slots()[slot as int] is Free) ==> r
                == Err::<(), Error>(Error::ExhaustedPool) && final(self).slots() == old(
                self,
            ).slots() && final(self).claims() == old(self).claims(),
    {
        if slot >= self.slots.len() {
            return Err(Error::ExhaustedPool);
        }
        match self.slots[slot] {
            Slot::Free => {
                proof {
                    lemma_taken_update(self.slots@, slot as int, Slot::InFlight(offset));
                }
                self.slots.set(slot, Slot::InFlight(offset));
                self.claims = Ghost(self.claims@ + 1);
                Ok(())
            },
            _ => Err(Error::ExhaustedPool),
        }
    }

    /// Claims the next offset from `cursor` and submits slot `slot` there.
    /// Gives the offset claimed. Nothing is claimed for a slot that is not
    /// free.
    pub fn claim_and_submit(&mut self, slot: usize, cursor: &AtomicU64) -> (r: Result<u64, Error>)
        requires
            old(self).wf(),
        ensures
            final(self).wf(),
            final(self).block_size() == old(self).block_size(),
            final(self).full_reads() == old(self).full_reads(),
            slot < old(self).slots().len() && old(self).slots()[slot as int] is Free ==> r is Ok
                && final(self).slots() == old(self).slots().update(
                slot as int,
                Slot::InFlight(r->Ok_0),
            ) && final(self).claims() == old(self).claims() + 1,
            !(slot < old(self).slots().len() && old(self).slots()[slot as int] is Free) ==> r
                == Err::<u64, Error>(Error::ExhaustedPool) && final(self).slots() == old(
                self,
            ).slots() && final(self).claims() == old(self).claims(),
    {
        if slot >= self.slots.len() {
            return Err(Error::ExhaustedPool);
        }
        match self.slots[slot] {
            Slot::Free => {
                let offset = claim(cursor, self.block_size as u64);
                proof {
                    lemma_taken_update(self.slots@, slot as int, Slot::InFlight(offset));
                }
                self.slots.set(slot, Slot::InFlight(offset));
                self.claims = Ghost(self.claims@ + 1);
                Ok(offset)
            },
            _ => Err(Error::ExhaustedPool),
        }
    }

    /// Records that the read in slot `slot` completed with `n` bytes and
    /// says what follows. No bytes: the source ended before this offset, the
    /// slot is retired and nothing is sent. A short read: the bytes are
    /// sent and the slot is retired, for the source ends here. A full
    /// block: the bytes are sent and the slot is free for the next claim.
    /// `None`, and no change, where the slot has no read in flight.
    pub fn complete(&mut self, slot: usize, n: usize) -> (c: Option<Completion>)
        requires
            old(self).wf(),
        ensures
            final(self).wf(),
            final(self).block_size() == old(self).block_size(),
            final(self).claims() == old(self).claims(),
            slot < old(self).slots().len() && old(self).slots()[slot as int] is InFlight ==> c
                == Some(
                completion_of(old(self).slots()[slot as int]->InFlight_0, n, old(self).block_size()),
            ) && final(self).slots() == old(self).slots().update(
                slot as int,
                slot_after(n, old(self).block_size()),
            ) && final(self).full_reads() == old(self).full_reads() + if n == old(
                self,
            ).block_size() {
                1nat
            } else {
                0nat
            },
            !(slot < old(self).slots().len() && old(self).slots()[slot as int] is InFlight) ==> c
                is None && final(self).slots() == old(self).slots() && final(self).full_reads()
                == old(self).full_reads(),
    {
        if slot >= self.slots.len() {
            return None;
        }
        match self.slots[slot] {
            Slot::InFlight(offset) => {
                let c = decide(offset, n, self.block_size);
                proof {
                    lemma_taken_update(self.slots@, slot as int, slot_after(n, self.block_size));
                }
                self.slots.set(
                    slot,
                    if c.resubmit {
                        Slot::Free
                    } else {
                        Slot::Retired
                    },
                );
                if c.resubmit {
                    self.full_reads = Ghost(self.full_reads@ + 1);
                }
                Some(c)
            },
            _ => None,
        }
    }

    /// Whether the window is empty: no read is in flight.
    pub fn is_idle(&self) -> (idle: bool)
        ensures
            idle == self.idle(),
    {
        let mut i: usize = 0;
        while i < self.slots.len()
            invariant
                i <= self.slots.len(),
                forall|j: int| 0 <= j < i ==> !(#[trigger] self.slots@[j] is InFlight),
            decreases self.slots.len() - i,
        {
            match self.slots[i] {
                Slot::InFlight(_) => {
                    return false;
                },
                _ => {},
            }
            i += 1;
        }
        true
    }
}

/// When all its slots have retired, a worker has claimed once for every
/// slot and once more for every full block that it read, and no more: a
/// slot is submitted again only after a full block, and never once it has
/// retired.
pub proof fn lemma_claims_of_a_worker(w: Worker)
    requires
        w.wf(),
        w.retired(),
    ensures
        w.claims() == w.slots().len() + w.full_reads(),
{
    lemma_taken_bounds(w.slots());
    assert forall|i: int| 0 <= i < w.slots().len() implies !(#[trigger] w.slots()[i] is Free) by {
        assert(w.slots()[i] is Retired);
    }
}

/// The work item that a completed read becomes: the bytes read, copied out
/// of the buffer before it is used again.
pub fn copy_out(buffer: &[u8], n: usize) -> (bytes: Vec<u8>)
    requires
        n <= buffer@.len(),
    ensures
        bytes@ == buffer@.subrange(0, n as int),
{
    let mut bytes: Vec<u8> = Vec::with_capacity(n);
    let mut i: usize = 0;
    while i < n
        invariant
            i <= n <= buffer@.len(),
            bytes@ == buffer@.subrange(0, i as int),
        decreases n - i,
    {
        bytes.push(buffer[i]);
        i += 1;
    }
    bytes
}

} // verus!
