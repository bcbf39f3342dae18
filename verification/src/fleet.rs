//! All the reader workers together, as mathematics.
//!
//! Every buffer slot of every worker is a lane. A free lane claims the next
//! position from the shared cursor and reads the block there; when the read
//! completes, the bytes are sent on under that position, and the lane is
//! free again after a full block and retired after anything less. The
//! cursor hands out the positions 0, 1, 2, .. once each: that is all that
//! the lanes share. Which worker a lane belongs to plays no part.
//!
//! This module proves that, in whatever order the lanes move, the positions
//! sent are those of the source, each once.

use vstd::prelude::*;

use crate::digest::digest_text;
use crate::reader::{completion_of, position_of, slot_after, Slot};
use crate::reassembly::{
    all_encodable, arrives_once_each, deliver_all, joined, lemma_arrival_order_is_immaterial,
    lemma_direct_stream_is_the_blocks, records_of, settled,
};

verus! {

/// The number of blocks of a source of `size` bytes.
pub open spec fn block_count(size: nat, block_size: nat) -> nat {
    if size % block_size == 0 {
        size / block_size
    } else {
        size / block_size + 1
    }
}

/// The number of bytes that a read at `position` brings: a full block
/// while the source lasts, what is left of it at its end, nothing behind.
pub open spec fn block_len(size: nat, block_size: nat, position: nat) -> nat {
    if position < size / block_size {
        block_size
    } else if position == size / block_size {
        size % block_size
    } else {
        0
    }
}

/// A slot of some worker.
pub enum Lane {
    /// The buffer is with its worker.
    Free,
    /// A read is in flight for the block of this position.
    Reading { position: nat },
    /// The source ended here.
    Retired,
}

/// All lanes, the cursor, and the positions sent so far in the order in
/// which they were sent.
pub struct Fleet {
    pub lanes: Seq<Lane>,
    pub claims: nat,
    pub sent: Seq<nat>,
}

/// What a lane can do.
pub enum Move {
    /// Claim the next position and submit a read there.
    Submit { lane: int },
    /// Take the completion of the read in flight.
    Complete { lane: int },
}

impl Fleet {
    /// `lanes` free lanes and a cursor at the start.
    pub open spec fn start(lanes: nat) -> Fleet {
        Fleet { lanes: Seq::new(lanes, |i: int| Lane::Free), claims: 0, sent: Seq::empty() }
    }

    /// Some lane reads the block of `position`.
    pub open spec fn reading(self, position: nat) -> bool {
        exists|i: int|
            0 <= i < self.lanes.len() && #[trigger] self.lanes[i] == (Lane::Reading { position })
    }

    /// Every lane is retired: the run is over.
    pub open spec fn finished(self) -> bool {
        forall|i: int| 0 <= i < self.lanes.len() ==> #[trigger] self.lanes[i] is Retired
    }

    /// A free lane claims the position at which the cursor stands, which
    /// moves on by one block.
    pub open spec fn submit(self, lane: int) -> Fleet {
        if 0 <= lane < self.lanes.len() && self.lanes[lane] is Free {
            Fleet {
                lanes: self.lanes.update(lane, Lane::Reading { position: self.claims }),
                claims: self.claims + 1,
                sent: self.sent,
            }
        } else {
            self
        }
    }

    /// The read of a lane completes. Bytes that came are sent on under the
    /// position claimed for this read; the lane goes on only after a full
    /// block.
    pub open spec fn complete(self, lane: int, size: nat, block_size: nat) -> Fleet {
        if 0 <= lane < self.lanes.len() && self.lanes[lane] is Reading {
            let position = self.lanes[lane]->position;
            let n = block_len(size, block_size, position);
            Fleet {
                lanes: self.lanes.update(
                    lane,
                    if n == block_size {
                        Lane::Free
                    } else {
                        Lane::Retired
                    },
                ),
                claims: self.claims,
                sent: if n > 0 {
                    self.sent.push(position)
                } else {
                    self.sent
                },
            }
        } else {
            self
        }
    }

    /// One move. A move that its lane cannot make changes nothing.
    pub open spec fn step(self, m: Move, size: nat, block_size: nat) -> Fleet {
        match m {
            Move::Submit { lane } => self.submit(lane),
            Move::Complete { lane } => self.complete(lane, size, block_size),
        }
    }
}

/// The fleet after the moves of `moves`, first to last, from the start.
pub open spec fn run(lanes: nat, moves: Seq<Move>, size: nat, block_size: nat) -> Fleet
    decreases moves.len(),
{
    if moves.len() == 0 {
        Fleet::start(lanes)
    } else {
        run(lanes, moves.drop_last(), size, block_size).step(moves.last(), size, block_size)
    }
}

// What holds of the fleet at all times.
spec fn sound(f: Fleet, size: nat, block_size: nat) -> bool {
    // positions in flight were claimed, and no two lanes read the same
    &&& forall|i: int|
        0 <= i < f.lanes.len() && (#[trigger] f.lanes[i]) is Reading ==> f.lanes[i]->position
            < f.claims
    &&& forall|i: int, j: int|
        0 <= i < j < f.lanes.len() && (#[trigger] f.lanes[i]) is Reading && (
        #[trigger] f.lanes[j]) is Reading ==> f.lanes[i]->position != f.lanes[j]->position
    // what was sent was claimed, lies within the source and is not read again
    &&& f.sent.no_duplicates()
    &&& forall|x: int|
        0 <= x < f.sent.len() ==> (#[trigger] f.sent[x]) < f.claims && f.sent[x] < block_count(
            size,
            block_size,
        ) && !f.reading(f.sent[x])
    // what was claimed is in flight, or was sent, or lies behind the source
    &&& forall|k: nat|
        k < f.claims ==> #[trigger] f.reading(k) || k >= block_count(size, block_size)
            || f.sent.contains(k)
    // a lane retires only once the cursor has passed the end of the source
    &&& (exists|i: int| 0 <= i < f.lanes.len() && (#[trigger] f.lanes[i]) is Retired) ==> f.claims
        >= block_count(size, block_size)
}

proof fn lemma_submit_sound(f: Fleet, lane: int, size: nat, block_size: nat)
    requires
        sound(f, size, block_size),
        block_size > 0,
    ensures
        sound(f.submit(lane), size, block_size),
{
    let g = f.submit(lane);
    if 0 <= lane < f.lanes.len() && f.lanes[lane] is Free {
        assert forall|p: nat| p != f.claims implies (g.reading(p) <==> f.reading(p)) by {
            if f.reading(p) {
                let i = choose|i: int|
                    0 <= i < f.lanes.len() && #[trigger] f.lanes[i] == (Lane::Reading {
                        position: p,
                    });
                assert(g.lanes[i] == f.lanes[i]);
            }
            if g.reading(p) {
                let i = choose|i: int|
                    0 <= i < g.lanes.len() && #[trigger] g.lanes[i] == (Lane::Reading {
                        position: p,
                    });
                assert(f.lanes[i] == g.lanes[i]);
            }
        }
        assert(g.reading(f.claims)) by {
            assert(g.lanes[lane] == Lane::Reading { position: f.claims });
        }
        assert forall|i: int|
            0 <= i < g.lanes.len() && (#[trigger] g.lanes[i]) is Reading implies g.lanes[i]->position
            < g.claims by {
            if i != lane {
                assert(f.lanes[i] == g.lanes[i]);
            }
        }
        assert forall|i: int, j: int|
            0 <= i < j < g.lanes.len() && (#[trigger] g.lanes[i]) is Reading && (
            #[trigger] g.lanes[j]) is Reading implies g.lanes[i]->position
            != g.lanes[j]->position by {
            if i != lane {
                assert(f.lanes[i] == g.lanes[i]);
            }
            if j != lane {
                assert(f.lanes[j] == g.lanes[j]);
            }
        }
        assert forall|x: int| 0 <= x < g.sent.len() implies (#[trigger] g.sent[x]) < g.claims
            && g.sent[x] < block_count(size, block_size) && !g.reading(g.sent[x]) by {
            assert(f.sent[x] < f.claims);
        }
        assert forall|k: nat| k < g.claims implies #[trigger] g.reading(k) || k >= block_count(
            size,
            block_size,
        ) || g.sent.contains(k) by {
            if k < f.claims {
                assert(f.reading(k) || k >= block_count(size, block_size) || f.sent.contains(k));
            }
        }
        if exists|i: int| 0 <= i < g.lanes.len() && (#[trigger] g.lanes[i]) is Retired {
            let i = choose|i: int| 0 <= i < g.lanes.len() && (#[trigger] g.lanes[i]) is Retired;
            assert(f.lanes[i] is Retired);
        }
    }
}

proof fn lemma_complete_sound(f: Fleet, lane: int, size: nat, block_size: nat)
    requires
        sound(f, size, block_size),
        block_size > 0,
    ensures
        sound(f.complete(lane, size, block_size), size, block_size),
{
    let g = f.complete(lane, size, block_size);
    if 0 <= lane < f.lanes.len() && f.lanes[lane] is Reading {
        let position = f.lanes[lane]->position;
        let n = block_len(size, block_size, position);
        assert(size % block_size < block_size) by (nonlinear_arith)
            requires
                block_size > 0,
        ;
        assert(f.reading(position)) by {
            assert(f.lanes[lane] == Lane::Reading { position });
        }
        assert forall|p: nat| p != position implies (g.reading(p) <==> f.reading(p)) by {
            if f.reading(p) {
                let i = choose|i: int|
                    0 <= i < f.lanes.len() && #[trigger] f.lanes[i] == (Lane::Reading {
                        position: p,
                    });
                assert(g.lanes[i] == f.lanes[i]);
            }
            if g.reading(p) {
                let i = choose|i: int|
                    0 <= i < g.lanes.len() && #[trigger] g.lanes[i] == (Lane::Reading {
                        position: p,
                    });
                assert(f.lanes[i] == g.lanes[i]);
            }
        }
        assert(!g.reading(position)) by {
            if g.reading(position) {
                let i = choose|i: int|
                    0 <= i < g.lanes.len() && #[trigger] g.lanes[i] == (Lane::Reading { position });
                assert(i != lane);
                assert(f.lanes[i] == g.lanes[i]);
                if i < lane {
                    assert(f.lanes[i]->position != f.lanes[lane]->position);
                } else {
                    assert(f.lanes[lane]->position != f.lanes[i]->position);
                }
            }
        }
        assert forall|i: int|
            0 <= i < g.lanes.len() && (#[trigger] g.lanes[i]) is Reading implies g.lanes[i]->position
            < g.claims by {
            assert(f.lanes[i] == g.lanes[i]);
        }
        assert forall|i: int, j: int|
            0 <= i < j < g.lanes.len() && (#[trigger] g.lanes[i]) is Reading && (
            #[trigger] g.lanes[j]) is Reading implies g.lanes[i]->position
            != g.lanes[j]->position by {
            assert(f.lanes[i] == g.lanes[i]);
            assert(f.lanes[j] == g.lanes[j]);
        }
        assert(!f.sent.contains(position)) by {
            if f.sent.contains(position) {
                let x = choose|x: int| 0 <= x < f.sent.len() && f.sent[x] == position;
                assert(!f.reading(f.sent[x]));
            }
        }
        assert(g.sent.no_duplicates());
        assert forall|x: int| 0 <= x < g.sent.len() implies (#[trigger] g.sent[x]) < g.claims
            && g.sent[x] < block_count(size, block_size) && !g.reading(g.sent[x]) by {
            if x < f.sent.len() {
                assert(g.sent[x] == f.sent[x]);
                assert(!f.reading(f.sent[x]));
            }
        }
        assert forall|k: nat| k < g.claims implies #[trigger] g.reading(k) || k >= block_count(
            size,
            block_size,
        ) || g.sent.contains(k) by {
            if k == position {
                if n > 0 {
                    assert(g.sent[g.sent.len() - 1] == position);
                }
            } else {
                assert(f.reading(k) || k >= block_count(size, block_size) || f.sent.contains(k));
                if f.sent.contains(k) {
                    let x = choose|x: int| 0 <= x < f.sent.len() && f.sent[x] == k;
                    assert(g.sent[x] == k);
                }
            }
        }
        if exists|i: int| 0 <= i < g.lanes.len() && (#[trigger] g.lanes[i]) is Retired {
            let i = choose|i: int| 0 <= i < g.lanes.len() && (#[trigger] g.lanes[i]) is Retired;
            if i != lane {
                assert(f.lanes[i] is Retired);
            }
        }
    }
}

proof fn lemma_run_sound(lanes: nat, moves: Seq<Move>, size: nat, block_size: nat)
    requires
        block_size > 0,
    ensures
        sound(run(lanes, moves, size, block_size), size, block_size),
        run(lanes, moves, size, block_size).lanes.len() == lanes,
    decreases moves.len(),
{
    if moves.len() == 0 {
        let f = Fleet::start(lanes);
        assert forall|k: nat| !f.reading(k) by {
            if f.reading(k) {
                let i = choose|i: int|
                    0 <= i < f.lanes.len() && #[trigger] f.lanes[i] == (Lane::Reading {
                        position: k,
                    });
                assert(f.lanes[i] is Free);
            }
        }
        if exists|i: int| 0 <= i < f.lanes.len() && (#[trigger] f.lanes[i]) is Retired {
            let i = choose|i: int| 0 <= i < f.lanes.len() && (#[trigger] f.lanes[i]) is Retired;
            assert(f.lanes[i] is Free);
        }
    } else {
        let f = run(lanes, moves.drop_last(), size, block_size);
        lemma_run_sound(lanes, moves.drop_last(), size, block_size);
        match moves.last() {
            Move::Submit { lane } => lemma_submit_sound(f, lane, size, block_size),
            Move::Complete { lane } => lemma_complete_sound(f, lane, size, block_size),
        }
    }
}

/// Nothing is sent twice and nothing from behind the source, at any time
/// and whatever the lanes do.
pub proof fn lemma_no_position_sent_twice(lanes: nat, moves: Seq<Move>, size: nat, block_size: nat)
    requires
        block_size > 0,
    ensures
        run(lanes, moves, size, block_size).sent.no_duplicates(),
        forall|x: int|
            0 <= x < run(lanes, moves, size, block_size).sent.len() ==> (#[trigger] run(
                lanes,
                moves,
                size,
                block_size,
            ).sent[x]) < block_count(size, block_size),
{
    lemma_run_sound(lanes, moves, size, block_size);
}

/// Coverage: when all lanes have retired, the positions sent are exactly
/// those of the source, 0 up to the number of its blocks, each of them
/// once: no position is missing and none comes twice, however many lanes
/// there are and in whatever order they moved.
pub proof fn lemma_coverage(lanes: nat, moves: Seq<Move>, size: nat, block_size: nat)
    requires
        block_size > 0,
        lanes > 0,
        run(lanes, moves, size, block_size).finished(),
    ensures
        run(lanes, moves, size, block_size).sent.no_duplicates(),
        run(lanes, moves, size, block_size).sent.to_set() == Set::new(
            |p: nat| p < block_count(size, block_size),
        ),
        run(lanes, moves, size, block_size).sent.len() == block_count(size, block_size),
{
    let f = run(lanes, moves, size, block_size);
    let count = block_count(size, block_size);
    lemma_run_sound(lanes, moves, size, block_size);
    assert(f.lanes[0] is Retired);
    assert(f.claims >= count);
    assert forall|p: nat| f.sent.to_set().contains(p) <==> p < count by {
        if f.sent.contains(p) {
            let x = choose|x: int| 0 <= x < f.sent.len() && f.sent[x] == p;
            assert(f.sent[x] < count);
        }
        if p < count {
            assert(f.reading(p) || p >= count || f.sent.contains(p));
            if f.reading(p) {
                let i = choose|i: int|
                    0 <= i < f.lanes.len() && #[trigger] f.lanes[i] == (Lane::Reading {
                        position: p,
                    });
                assert(f.lanes[i] is Retired);
            }
        }
    }
    assert(f.sent.to_set() =~= Set::new(|p: nat| p < count));
    f.sent.unique_seq_to_set();
    lemma_nat_range_len(count);
}

// There are `n` natural numbers below `n`.
proof fn lemma_nat_range_len(n: nat)
    ensures
        Set::new(|p: nat| p < n).finite(),
        Set::new(|p: nat| p < n).len() == n,
    decreases n,
{
    if n == 0 {
        assert(Set::new(|p: nat| p < n) =~= Set::<nat>::empty());
    } else {
        lemma_nat_range_len((n - 1) as nat);
        assert(Set::new(|p: nat| p < n) =~= Set::new(|p: nat| p < (n - 1) as nat).insert(
            (n - 1) as nat,
        ));
    }
}


/// A read at the offset of `position` brings what is left of the source
/// there, and a block at most.
pub proof fn lemma_block_len_is_what_is_left(size: nat, block_size: nat, position: nat)
    requires
        block_size > 0,
    ensures
        block_len(size, block_size, position) == if position * block_size >= size {
            0
        } else if size - position * block_size < block_size {
            size - position * block_size
        } else {
            block_size as int
        },
        block_len(size, block_size, position) > 0 <==> position < block_count(size, block_size),
{
    let full = size / block_size;
    let rest = size % block_size;
    assert(size == full * block_size + rest && rest < block_size) by (nonlinear_arith)
        requires
            block_size > 0,
            full == size / block_size,
            rest == size % block_size,
    ;
    if position < full {
        assert(position * block_size + block_size <= full * block_size) by (nonlinear_arith)
            requires
                position < full,
        ;
    } else if position == full {
    } else {
        assert(position * block_size >= full * block_size + block_size) by (nonlinear_arith)
            requires
                position > full,
        ;
    }
}

/// The lane that a worker's slot stands for.
pub open spec fn lane_of(slot: Slot, block_size: usize) -> Lane {
    match slot {
        Slot::Free => Lane::Free,
        Slot::InFlight(offset) => Lane::Reading {
            position: position_of(offset as int, block_size as int) as nat,
        },
        Slot::Retired => Lane::Retired,
    }
}

/// A worker decides as its lanes do: for the read of the block of
/// `position`, at the offset that the cursor gave for it, the worker sends
/// the bytes on under `position` exactly when the lane does, and leaves its
/// slot as the lane is left.
pub proof fn lemma_worker_decides_as_its_lane(position: nat, size: nat, block_size: usize)
    requires
        block_size > 0,
        position * block_size <= u64::MAX,
    ensures
        ({
            let offset = (position * block_size) as u64;
            let n = block_len(size, block_size as nat, position) as usize;
            let lane = Fleet {
                lanes: seq![Lane::Reading { position }],
                claims: position + 1,
                sent: Seq::empty(),
            }.complete(0, size, block_size as nat);
            &&& lane_of(Slot::InFlight(offset), block_size) == Lane::Reading { position }
            &&& completion_of(offset, n, block_size).position == if lane.sent.len() > 0 {
                Some(lane.sent[0] as u64)
            } else {
                None
            }
            &&& completion_of(offset, n, block_size).resubmit == (lane.lanes[0] is Free)
            &&& lane_of(slot_after(n, block_size), block_size) == lane.lanes[0]
        }),
{
    assert(size % (block_size as nat) < block_size) by (nonlinear_arith)
        requires
            block_size > 0,
    ;
    assert((position * block_size) / (block_size as int) == position) by (nonlinear_arith)
        requires
            block_size > 0,
    ;
}

/// The short last block: where the size of the source is no multiple of the
/// block size, the last position brings fewer bytes than a block, and
/// more than none. The lane that reads it sends them on and retires, and
/// the cursor stays where it is: nothing is claimed after the end.
pub proof fn lemma_short_final_block(f: Fleet, lane: int, size: nat, block_size: nat)
    requires
        block_size > 0,
        size % block_size != 0,
        0 <= lane < f.lanes.len(),
        f.lanes[lane] == (Lane::Reading { position: size / block_size }),
    ensures
        block_count(size, block_size) == size / block_size + 1,
        0 < block_len(size, block_size, size / block_size) < block_size,
        block_len(size, block_size, size / block_size) == size % block_size,
        f.complete(lane, size, block_size).lanes[lane] is Retired,
        f.complete(lane, size, block_size).claims == f.claims,
        f.complete(lane, size, block_size).sent == f.sent.push(size / block_size),
{
    assert(size % block_size < block_size) by (nonlinear_arith)
        requires
            block_size > 0,
    ;
}

// The lanes whose last claim lay at or behind the last full block.
spec fn ended(lanes: Seq<Lane>, full: nat) -> nat
    decreases lanes.len(),
{
    if lanes.len() == 0 {
        0
    } else {
        ended(lanes.drop_last(), full) + if at_end(lanes.last(), full) {
            1nat
        } else {
            0nat
        }
    }
}

spec fn at_end(lane: Lane, full: nat) -> bool {
    match lane {
        Lane::Free => false,
        Lane::Reading { position } => position >= full,
        Lane::Retired => true,
    }
}

proof fn lemma_ended_bound(lanes: Seq<Lane>, full: nat)
    ensures
        ended(lanes, full) <= lanes.len(),
    decreases lanes.len(),
{
    if lanes.len() > 0 {
        lemma_ended_bound(lanes.drop_last(), full);
    }
}

proof fn lemma_ended_update(lanes: Seq<Lane>, full: nat, i: int, lane: Lane)
    requires
        0 <= i < lanes.len(),
    ensures
        ended(lanes.update(i, lane), full) + (if at_end(lanes[i], full) {
            1nat
        } else {
            0nat
        }) == ended(lanes, full) + (if at_end(lane, full) {
            1nat
        } else {
            0nat
        }),
    decreases lanes.len(),
{
    let updated = lanes.update(i, lane);
    if i == lanes.len() - 1 {
        assert(updated.drop_last() =~= lanes.drop_last());
    } else {
        assert(updated.drop_last() =~= lanes.drop_last().update(i, lane));
        lemma_ended_update(lanes.drop_last(), full, i, lane);
    }
}

proof fn lemma_run_claims(lanes: nat, moves: Seq<Move>, size: nat, block_size: nat)
    requires
        block_size > 0,
    ensures
        run(lanes, moves, size, block_size).lanes.len() == lanes,
        run(lanes, moves, size, block_size).claims <= size / block_size + ended(
            run(lanes, moves, size, block_size).lanes,
            size / block_size,
        ),
    decreases moves.len(),
{
    let full = size / block_size;
    if moves.len() == 0 {
        lemma_ended_bound(Fleet::start(lanes).lanes, full);
    } else {
        let f = run(lanes, moves.drop_last(), size, block_size);
        lemma_run_claims(lanes, moves.drop_last(), size, block_size);
        assert(size % block_size < block_size) by (nonlinear_arith)
            requires
                block_size > 0,
        ;
        match moves.last() {
            Move::Submit { lane } => {
                if 0 <= lane < f.lanes.len() && f.lanes[lane] is Free {
                    lemma_ended_update(f.lanes, full, lane, Lane::Reading { position: f.claims });
                }
            },
            Move::Complete { lane } => {
                if 0 <= lane < f.lanes.len() && f.lanes[lane] is Reading {
                    let n = block_len(size, block_size, f.lanes[lane]->position);
                    lemma_ended_update(
                        f.lanes,
                        full,
                        lane,
                        if n == block_size {
                            Lane::Free
                        } else {
                            Lane::Retired
                        },
                    );
                }
            },
        }
    }
}

/// The run ends: the cursor never passes the full blocks of the source by
/// more than one claim for each lane, whatever the lanes do. A lane claims
/// again only after a full block, so each lane claims at most once at or
/// behind the end of the source.
pub proof fn lemma_claims_are_bounded(lanes: nat, moves: Seq<Move>, size: nat, block_size: nat)
    requires
        block_size > 0,
    ensures
        run(lanes, moves, size, block_size).claims <= size / block_size + lanes,
{
    lemma_run_claims(lanes, moves, size, block_size);
    lemma_ended_bound(run(lanes, moves, size, block_size).lanes, size / block_size);
}

/// The block of `position` in `source`.
pub open spec fn block_at(source: Seq<u8>, block_size: nat, position: nat) -> Seq<u8> {
    source.subrange(
        (position * block_size) as int,
        (position * block_size + block_len(source.len(), block_size, position)) as int,
    )
}

/// The blocks of `source`, in position order.
pub open spec fn blocks_of(source: Seq<u8>, block_size: nat) -> Seq<Seq<u8>> {
    Seq::new(block_count(source.len(), block_size), |k: int| block_at(source, block_size, k as nat))
}

proof fn lemma_blocks_join(source: Seq<u8>, block_size: nat, upto: nat)
    requires
        block_size > 0,
        upto <= block_count(source.len(), block_size),
    ensures
        upto * block_size <= source.len() ==> joined(blocks_of(source, block_size).take(upto as int))
            == source.subrange(0, (upto * block_size) as int),
        upto * block_size > source.len() ==> joined(blocks_of(source, block_size).take(upto as int))
            == source,
    decreases upto,
{
    let blocks = blocks_of(source, block_size);
    let size = source.len();
    if upto == 0 {
        assert(blocks.take(0).len() == 0);
        assert(0 * block_size == 0) by (nonlinear_arith);
        assert(source.subrange(0, 0) =~= Seq::<u8>::empty());
    } else {
        let k = (upto - 1) as nat;
        lemma_blocks_join(source, block_size, k);
        lemma_block_len_is_what_is_left(size, block_size, k);
        assert(blocks.take(upto as int).drop_last() =~= blocks.take(k as int));
        assert(blocks.take(upto as int).last() == block_at(source, block_size, k));
        assert(upto * block_size == k * block_size + block_size) by (nonlinear_arith)
            requires
                upto == k + 1,
        ;
        assert(k * block_size < size);
        let before = source.subrange(0, (k * block_size) as int);
        let block = block_at(source, block_size, k);
        assert(joined(blocks.take(upto as int)) == before + block);
        if upto * block_size <= size {
            assert(before + block =~= source.subrange(0, (upto * block_size) as int));
        } else {
            assert(before + block =~= source);
        }
    }
}

/// The blocks of a source, joined in position order, are the source.
pub proof fn lemma_blocks_make_the_source(source: Seq<u8>, block_size: nat)
    requires
        block_size > 0,
    ensures
        joined(blocks_of(source, block_size)) == source,
{
    let blocks = blocks_of(source, block_size);
    let count = block_count(source.len(), block_size);
    let size = source.len();
    lemma_blocks_join(source, block_size, count);
    assert(blocks.take(count as int) =~= blocks);
    let full = size / block_size;
    assert(size == full * block_size + size % block_size) by (nonlinear_arith)
        requires
            block_size > 0,
            full == size / block_size,
    ;
    if size % block_size == 0 {
        assert(source.subrange(0, size as int) =~= source);
    } else {
        assert((full + 1) * block_size > size) by (nonlinear_arith)
            requires
                block_size > 0,
                size == full * block_size + size % block_size,
                size % block_size < block_size,
        ;
    }
}

/// Direct mode copies the source: where every block of the source arrives
/// once under its position, in whatever order, the records released, joined
/// in the order of their release, are the source byte for byte, with no
/// framing between them, and nothing is left waiting.
pub proof fn lemma_direct_output_is_the_source(
    source: Seq<u8>,
    block_size: nat,
    arrivals: Seq<(u64, Seq<u8>)>,
    compress: bool,
)
    requires
        block_size > 0,
        block_count(source.len(), block_size) <= u64::MAX,
        arrives_once_each(arrivals, blocks_of(source, block_size)),
    ensures
        records_of(deliver_all(arrivals, true, compress).done, true, compress) == source,
        joined(deliver_all(arrivals, true, compress).done) == source,
        deliver_all(arrivals, true, compress).drained(),
{
    let blocks = blocks_of(source, block_size);
    lemma_direct_stream_is_the_blocks(blocks, compress);
    lemma_arrival_order_is_immaterial(arrivals, blocks, true, compress);
    lemma_blocks_make_the_source(source, block_size);
}

/// The work items that the fleet sends for the positions of `sent`, in that
/// order: each position with the block of the source that lies there.
pub open spec fn work_items(sent: Seq<nat>, source: Seq<u8>, block_size: nat) -> Seq<
    (u64, Seq<u8>),
> {
    Seq::new(sent.len(), |j: int| (sent[j] as u64, block_at(source, block_size, sent[j])))
}

/// Readers and sequencer together: when all lanes have retired, the work
/// items sent bring every block of the source once, under its position.
/// So the sequencer ends in `settled(blocks_of(source))`, whatever the
/// number of lanes and the order in which the reads completed. Where every
/// block can be encoded, as in direct mode, the blocks of the source are
/// released in their order and nothing is left waiting; the output stream
/// holds their records in position order, and the digest is that of the
/// source.
pub proof fn lemma_whole_source_in_order(
    lanes: nat,
    moves: Seq<Move>,
    source: Seq<u8>,
    block_size: nat,
    dd: bool,
    compress: bool,
    sha256: bool,
    blake3: bool,
)
    requires
        block_size > 0,
        lanes > 0,
        block_count(source.len(), block_size) <= u64::MAX,
        run(lanes, moves, source.len(), block_size).finished(),
    ensures
        ({
            let items = work_items(
                run(lanes, moves, source.len(), block_size).sent,
                source,
                block_size,
            );
            let blocks = blocks_of(source, block_size);
            let end = deliver_all(items, dd, compress);
            &&& arrives_once_each(items, blocks)
            &&& end == settled(blocks, dd, compress)
            &&& (dd || all_encodable(blocks, dd, compress)) ==> {
                &&& end.done == blocks
                &&& end.drained()
                &&& joined(end.done) == source
                &&& records_of(end.done, dd, compress) == records_of(blocks, dd, compress)
                &&& digest_text(sha256, blake3, joined(end.done)) == digest_text(
                    sha256,
                    blake3,
                    source,
                )
                &&& dd ==> records_of(end.done, dd, compress) == source
            }
        }),
{
    let f = run(lanes, moves, source.len(), block_size);
    let blocks = blocks_of(source, block_size);
    let items = work_items(f.sent, source, block_size);
    lemma_coverage(lanes, moves, source.len(), block_size);
    lemma_no_position_sent_twice(lanes, moves, source.len(), block_size);
    assert forall|j: int| 0 <= j < items.len() implies (#[trigger] items[j]).0 < blocks.len()
        && items[j].1 == blocks[items[j].0 as int] by {
        assert(f.sent[j] < block_count(source.len(), block_size));
    }
    assert forall|i: int, j: int| 0 <= i < j < items.len() implies (#[trigger] items[i]).0 != (
    #[trigger] items[j]).0 by {
        assert(f.sent[i] < block_count(source.len(), block_size));
        assert(f.sent[j] < block_count(source.len(), block_size));
        assert(f.sent[i] != f.sent[j]);
    }
    if dd {
        lemma_direct_stream_is_the_blocks(blocks, compress);
    }
    lemma_arrival_order_is_immaterial(items, blocks, dd, compress);
    lemma_blocks_make_the_source(source, block_size);
}

} // verus!
