//! The order of the output, as mathematics.
//!
//! Blocks arrive tagged with their position, in any order. They wait until
//! every earlier position has been released, and are then released one by
//! one, in position order. This module describes that rule on sequences and
//! maps, and proves what it gives for every order of arrival. The sequencer
//! in `writer` is proved to follow it step by step.

use vstd::prelude::*;
use vstd::set_lib::{lemma_int_range, lemma_len_subset, lemma_subset_equality, set_int_range};

use crate::chunk::encoding_of;
use crate::digest::digest_text;

verus! {

/// The blocks of `blocks` joined end to end.
pub open spec fn joined(blocks: Seq<Seq<u8>>) -> Seq<u8>
    decreases blocks.len(),
{
    if blocks.len() == 0 {
        Seq::empty()
    } else {
        joined(blocks.drop_last()) + blocks.last()
    }
}

/// The records of `blocks` joined end to end: the output stream that they
/// make, in this order.
pub open spec fn records_of(blocks: Seq<Seq<u8>>, dd: bool, compress: bool) -> Seq<u8>
    decreases blocks.len(),
{
    if blocks.len() == 0 {
        Seq::empty()
    } else {
        records_of(blocks.drop_last(), dd, compress) + encoding_of(
            blocks.last(),
            dd,
            compress,
        )->0
    }
}

/// What the sequencer holds: the blocks that wait, by position, and the
/// blocks released so far. The block of position `i` is `done[i]`.
pub struct Reassembly {
    pub pending: Map<u64, Seq<u8>>,
    pub done: Seq<Seq<u8>>,
}

impl Reassembly {
    /// Nothing has arrived yet.
    pub open spec fn start() -> Reassembly {
        Reassembly { pending: Map::empty(), done: Seq::empty() }
    }

    /// The position that is released next.
    pub open spec fn next(self) -> nat {
        self.done.len()
    }

    /// A position is taken in once: not when it was released already, nor
    /// while it waits.
    pub open spec fn accepts(self, position: u64) -> bool {
        position >= self.next() && !self.pending.contains_key(position)
    }

    /// The next block is here and can be encoded.
    pub open spec fn ready(self, dd: bool, compress: bool) -> bool {
        &&& self.next() < u64::MAX
        &&& self.pending.contains_key(self.next() as u64)
        &&& encoding_of(self.pending[self.next() as u64], dd, compress) is Some
    }

    /// The next block is here and cannot be encoded.
    pub open spec fn stuck(self, dd: bool, compress: bool) -> bool {
        &&& self.next() < u64::MAX
        &&& self.pending.contains_key(self.next() as u64)
        &&& encoding_of(self.pending[self.next() as u64], dd, compress) is None
    }

    /// Releases the next block.
    pub open spec fn release_one(self) -> Reassembly {
        Reassembly {
            pending: self.pending.remove(self.next() as u64),
            done: self.done.push(self.pending[self.next() as u64]),
        }
    }

    /// Releases blocks for as long as the next one is ready.
    pub open spec fn release(self, dd: bool, compress: bool) -> Reassembly
        decreases u64::MAX - self.done.len(),
    {
        if self.ready(dd, compress) {
            self.release_one().release(dd, compress)
        } else {
            self
        }
    }

    /// A block arrives. One whose position is not accepted changes nothing.
    pub open spec fn arrive(self, position: u64, bytes: Seq<u8>, dd: bool, compress: bool) -> Reassembly {
        if self.accepts(position) {
            Reassembly { pending: self.pending.insert(position, bytes), done: self.done }.release(
                dd,
                compress,
            )
        } else {
            self
        }
    }

    /// Nothing waits.
    pub open spec fn drained(self) -> bool {
        self.pending == Map::<u64, Seq<u8>>::empty()
    }
}

/// The state after the blocks of `arrivals` have arrived, first to last.
pub open spec fn deliver_all(arrivals: Seq<(u64, Seq<u8>)>, dd: bool, compress: bool) -> Reassembly
    decreases arrivals.len(),
{
    if arrivals.len() == 0 {
        Reassembly::start()
    } else {
        deliver_all(arrivals.drop_last(), dd, compress).arrive(
            arrivals.last().0,
            arrivals.last().1,
            dd,
            compress,
        )
    }
}

/// Some arrival brought `bytes` under `position`.
pub open spec fn arrived(arrivals: Seq<(u64, Seq<u8>)>, position: int, bytes: Seq<u8>) -> bool {
    exists|j: int|
        0 <= j < arrivals.len() && (#[trigger] arrivals[j]).0 == position && arrivals[j].1 == bytes
}

/// Every block of `blocks` arrives exactly once, under its own position.
pub open spec fn arrives_once_each(arrivals: Seq<(u64, Seq<u8>)>, blocks: Seq<Seq<u8>>) -> bool {
    &&& arrivals.len() == blocks.len()
    &&& forall|j: int|
        0 <= j < arrivals.len() ==> (#[trigger] arrivals[j]).0 < blocks.len() && arrivals[j].1
            == blocks[arrivals[j].0 as int]
    &&& forall|i: int, j: int|
        0 <= i < j < arrivals.len() ==> (#[trigger] arrivals[i]).0 != (#[trigger] arrivals[j]).0
}

/// Every block of `blocks` can be encoded.
pub open spec fn all_encodable(blocks: Seq<Seq<u8>>, dd: bool, compress: bool) -> bool {
    forall|i: int| 0 <= i < blocks.len() ==> encoding_of(#[trigger] blocks[i], dd, compress) is Some
}

// What holds of the state after any arrivals: what waits lies ahead of the
// next position, and every block held came in under its position.
spec fn traced(s: Reassembly, arrivals: Seq<(u64, Seq<u8>)>) -> bool {
    &&& s.done.len() <= u64::MAX
    &&& forall|k: u64| #[trigger]
        s.pending.contains_key(k) ==> k >= s.next() && arrived(arrivals, k as int, s.pending[k])
    &&& forall|i: int| 0 <= i < s.done.len() ==> arrived(arrivals, i, #[trigger] s.done[i])
}

proof fn lemma_release_traced(
    s: Reassembly,
    arrivals: Seq<(u64, Seq<u8>)>,
    dd: bool,
    compress: bool,
)
    requires
        traced(s, arrivals),
    ensures
        traced(s.release(dd, compress), arrivals),
    decreases u64::MAX - s.done.len(),
{
    if s.ready(dd, compress) {
        let t = s.release_one();
        assert forall|i: int| 0 <= i < t.done.len() implies arrived(
            arrivals,
            i,
            #[trigger] t.done[i],
        ) by {
            if i < s.done.len() {
                assert(t.done[i] == s.done[i]);
            } else {
                assert(s.pending.contains_key(s.next() as u64));
            }
        }
        assert forall|k: u64| #[trigger] t.pending.contains_key(k) implies k >= t.next()
            && arrived(arrivals, k as int, t.pending[k]) by {
            assert(s.pending.contains_key(k));
        }
        lemma_release_traced(t, arrivals, dd, compress);
    }
}

proof fn lemma_arrived_later(arrivals: Seq<(u64, Seq<u8>)>, position: int, bytes: Seq<u8>)
    requires
        arrivals.len() > 0,
        arrived(arrivals.drop_last(), position, bytes),
    ensures
        arrived(arrivals, position, bytes),
{
    let j = choose|j: int|
        0 <= j < arrivals.drop_last().len() && (#[trigger] arrivals.drop_last()[j]).0 == position
            && arrivals.drop_last()[j].1 == bytes;
    assert(arrivals[j] == arrivals.drop_last()[j]);
}

proof fn lemma_deliver_traced(arrivals: Seq<(u64, Seq<u8>)>, dd: bool, compress: bool)
    ensures
        traced(deliver_all(arrivals, dd, compress), arrivals),
    decreases arrivals.len(),
{
    if arrivals.len() > 0 {
        let before = arrivals.drop_last();
        let s = deliver_all(before, dd, compress);
        let (position, bytes) = arrivals.last();
        lemma_deliver_traced(before, dd, compress);
        assert forall|k: u64| #[trigger] s.pending.contains_key(k) implies arrived(
            arrivals,
            k as int,
            s.pending[k],
        ) by {
            lemma_arrived_later(arrivals, k as int, s.pending[k]);
        }
        assert forall|i: int| 0 <= i < s.done.len() implies arrived(
            arrivals,
            i,
            #[trigger] s.done[i],
        ) by {
            lemma_arrived_later(arrivals, i, s.done[i]);
        }
        if s.accepts(position) {
            let t = Reassembly { pending: s.pending.insert(position, bytes), done: s.done };
            assert(arrivals[arrivals.len() - 1] == (position, bytes));
            assert(arrived(arrivals, position as int, bytes));
            assert(traced(t, arrivals));
            lemma_release_traced(t, arrivals, dd, compress);
        }
    }
}

/// Order is kept, whatever the order of arrival: the block released in
/// `i`-th place is one that arrived under position `i`. So the records
/// leave in strictly increasing position order, each position once.
pub proof fn lemma_released_in_position_order(
    arrivals: Seq<(u64, Seq<u8>)>,
    dd: bool,
    compress: bool,
)
    ensures
        forall|i: int|
            0 <= i < deliver_all(arrivals, dd, compress).done.len() ==> arrived(
                arrivals,
                i,
                #[trigger] deliver_all(arrivals, dd, compress).done[i],
            ),
        forall|k: u64| #[trigger]
            deliver_all(arrivals, dd, compress).pending.contains_key(k) ==> k >= deliver_all(
                arrivals,
                dd,
                compress,
            ).next(),
{
    lemma_deliver_traced(arrivals, dd, compress);
}


// Among arrivals that bring every block once, every position occurs.
proof fn lemma_every_position_arrives(
    arrivals: Seq<(u64, Seq<u8>)>,
    blocks: Seq<Seq<u8>>,
    position: int,
)
    requires
        arrives_once_each(arrivals, blocks),
        0 <= position < blocks.len(),
    ensures
        arrived(arrivals, position, blocks[position]),
{
    let n = blocks.len() as int;
    let positions = Seq::new(arrivals.len(), |j: int| arrivals[j].0 as int);
    assert(positions.no_duplicates()) by {
        assert forall|i: int, j: int|
            0 <= i < positions.len() && 0 <= j < positions.len() && i != j implies positions[i]
            != positions[j] by {
            if i < j {
                assert(arrivals[i].0 != arrivals[j].0);
            } else {
                assert(arrivals[j].0 != arrivals[i].0);
            }
        }
    }
    positions.unique_seq_to_set();
    lemma_int_range(0, n);
    assert(positions.to_set().subset_of(set_int_range(0, n))) by {
        assert forall|p: int| positions.to_set().contains(p) implies set_int_range(0, n).contains(
            p,
        ) by {
            let j = choose|j: int| 0 <= j < positions.len() && positions[j] == p;
            assert(arrivals[j].0 < blocks.len());
        }
    }
    lemma_len_subset(positions.to_set(), set_int_range(0, n));
    lemma_subset_equality(positions.to_set(), set_int_range(0, n));
    assert(set_int_range(0, n).contains(position));
    assert(positions.to_set().contains(position));
    let j = choose|j: int| 0 <= j < positions.len() && positions[j] == position;
    assert(arrivals[j].0 == position);
    assert(arrivals[j].1 == blocks[position]);
}

/// The number of blocks at the front of `blocks` that can be encoded, one
/// and all: the position at which the sequencer comes to a halt, or the
/// number of blocks where it never does.
pub open spec fn encodable_prefix(blocks: Seq<Seq<u8>>, dd: bool, compress: bool) -> nat
    decreases blocks.len(),
{
    if blocks.len() == 0 {
        0
    } else {
        let before = encodable_prefix(blocks.drop_last(), dd, compress);
        if before == blocks.len() - 1 && encoding_of(blocks.last(), dd, compress) is Some {
            blocks.len()
        } else {
            before
        }
    }
}

/// Where the sequencer stands once every block of `blocks` has arrived: the
/// blocks in front of the first one that cannot be encoded are released, in
/// their order, and the others wait.
pub open spec fn settled(blocks: Seq<Seq<u8>>, dd: bool, compress: bool) -> Reassembly {
    let halt = encodable_prefix(blocks, dd, compress);
    Reassembly {
        pending: Map::new(|k: u64| halt <= k < blocks.len(), |k: u64| blocks[k as int]),
        done: blocks.take(halt as int),
    }
}

/// `encodable_prefix` is the one number with these three properties.
pub proof fn lemma_encodable_prefix(blocks: Seq<Seq<u8>>, dd: bool, compress: bool, halt: nat)
    requires
        halt <= blocks.len(),
        forall|i: int| 0 <= i < halt ==> encoding_of(#[trigger] blocks[i], dd, compress) is Some,
        halt < blocks.len() ==> encoding_of(blocks[halt as int], dd, compress) is None,
    ensures
        encodable_prefix(blocks, dd, compress) == halt,
    decreases blocks.len(),
{
    if blocks.len() > 0 {
        let before = blocks.drop_last();
        let m = before.len();
        if halt <= m {
            assert forall|i: int| 0 <= i < halt implies encoding_of(
                #[trigger] before[i],
                dd,
                compress,
            ) is Some by {
                assert(before[i] == blocks[i]);
            }
            if halt < m {
                assert(before[halt as int] == blocks[halt as int]);
            }
            lemma_encodable_prefix(before, dd, compress, halt);
        } else {
            assert forall|i: int| 0 <= i < m implies encoding_of(
                #[trigger] before[i],
                dd,
                compress,
            ) is Some by {
                assert(before[i] == blocks[i]);
            }
            lemma_encodable_prefix(before, dd, compress, m);
            assert(blocks.last() == blocks[m as int]);
        }
    }
}

/// Where every block can be encoded, the sequencer never halts: all blocks
/// are released and none waits.
pub proof fn lemma_settled_when_all_encodable(blocks: Seq<Seq<u8>>, dd: bool, compress: bool)
    requires
        all_encodable(blocks, dd, compress),
    ensures
        encodable_prefix(blocks, dd, compress) == blocks.len(),
        settled(blocks, dd, compress).done == blocks,
        settled(blocks, dd, compress).drained(),
{
    lemma_encodable_prefix(blocks, dd, compress, blocks.len());
    assert(blocks.take(blocks.len() as int) =~= blocks);
    assert(settled(blocks, dd, compress).pending =~= Map::<u64, Seq<u8>>::empty());
}

// What holds while the blocks of `blocks` come in, each under its own
// position: what was released is a prefix of `blocks` that could be
// encoded, what waits is of `blocks` and lies ahead.
spec fn held(s: Reassembly, blocks: Seq<Seq<u8>>, dd: bool, compress: bool) -> bool {
    &&& s.done.len() <= blocks.len()
    &&& forall|i: int|
        0 <= i < s.done.len() ==> #[trigger] s.done[i] == blocks[i] && encoding_of(
            blocks[i],
            dd,
            compress,
        ) is Some
    &&& forall|k: u64| #[trigger]
        s.pending.contains_key(k) ==> s.next() <= k < blocks.len() && s.pending[k]
            == blocks[k as int]
}

// Every position that came in was released or waits.
spec fn covers(s: Reassembly, arrivals: Seq<(u64, Seq<u8>)>) -> bool {
    forall|j: int|
        0 <= j < arrivals.len() ==> (#[trigger] arrivals[j]).0 < s.next() || s.pending.contains_key(
            arrivals[j].0,
        )
}

proof fn lemma_release_held(
    s: Reassembly,
    arrivals: Seq<(u64, Seq<u8>)>,
    blocks: Seq<Seq<u8>>,
    dd: bool,
    compress: bool,
)
    requires
        held(s, blocks, dd, compress),
        covers(s, arrivals),
    ensures
        held(s.release(dd, compress), blocks, dd, compress),
        covers(s.release(dd, compress), arrivals),
        !s.release(dd, compress).ready(dd, compress),
    decreases u64::MAX - s.done.len(),
{
    if s.ready(dd, compress) {
        let t = s.release_one();
        assert(s.pending.contains_key(s.next() as u64));
        assert forall|i: int| 0 <= i < t.done.len() implies #[trigger] t.done[i] == blocks[i]
            && encoding_of(blocks[i], dd, compress) is Some by {
            if i < s.done.len() {
                assert(t.done[i] == s.done[i]);
            }
        }
        assert forall|k: u64| #[trigger] t.pending.contains_key(k) implies t.next() <= k
            < blocks.len() && t.pending[k] == blocks[k as int] by {
            assert(s.pending.contains_key(k));
        }
        assert forall|j: int| 0 <= j < arrivals.len() implies (#[trigger] arrivals[j]).0 < t.next()
            || t.pending.contains_key(arrivals[j].0) by {
            if arrivals[j].0 >= s.next() {
                assert(s.pending.contains_key(arrivals[j].0));
            }
        }
        lemma_release_held(t, arrivals, blocks, dd, compress);
    }
}

proof fn lemma_deliver_held(
    arrivals: Seq<(u64, Seq<u8>)>,
    blocks: Seq<Seq<u8>>,
    dd: bool,
    compress: bool,
    m: int,
)
    requires
        arrives_once_each(arrivals, blocks),
        0 <= m <= arrivals.len(),
    ensures
        held(deliver_all(arrivals.take(m), dd, compress), blocks, dd, compress),
        covers(deliver_all(arrivals.take(m), dd, compress), arrivals.take(m)),
        !deliver_all(arrivals.take(m), dd, compress).ready(dd, compress),
    decreases m,
{
    let now = arrivals.take(m);
    if m > 0 {
        let before = arrivals.take(m - 1);
        assert(now.drop_last() == before);
        let s = deliver_all(before, dd, compress);
        let (position, bytes) = now.last();
        assert(now.last() == arrivals[m - 1]);
        lemma_deliver_held(arrivals, blocks, dd, compress, m - 1);
        lemma_deliver_traced(before, dd, compress);
        // the position is new, so it is neither released nor waiting
        assert(s.accepts(position)) by {
            if position < s.next() {
                assert(arrived(before, position as int, s.done[position as int]));
            }
            if s.pending.contains_key(position) {
                assert(arrived(before, position as int, s.pending[position]));
            }
            if position < s.next() || s.pending.contains_key(position) {
                let j = choose|j: int|
                    0 <= j < before.len() && (#[trigger] before[j]).0 == position;
                assert(before[j] == arrivals[j]);
                assert(arrivals[j].0 != arrivals[m - 1].0);
            }
        }
        let t = Reassembly { pending: s.pending.insert(position, bytes), done: s.done };
        assert(held(t, blocks, dd, compress));
        assert forall|j: int| 0 <= j < now.len() implies (#[trigger] now[j]).0 < t.next()
            || t.pending.contains_key(now[j].0) by {
            if j < m - 1 {
                assert(now[j] == before[j]);
            }
        }
        lemma_release_held(t, now, blocks, dd, compress);
    }
}

/// Every order of arrival gives the same result: where each block of
/// `blocks` arrives exactly once under its own position, in whatever order,
/// the sequencer ends in `settled(blocks)`. The blocks in front of the first
/// one that cannot be encoded are released in the order of `blocks`, and
/// the rest waits. Where every block can be encoded, that is all of them,
/// and the output stream is `records_of(blocks)`.
///
/// Positions are 64-bit numbers and the largest of them is never released,
/// so there are `u64::MAX` blocks at most.
pub proof fn lemma_arrival_order_is_immaterial(
    arrivals: Seq<(u64, Seq<u8>)>,
    blocks: Seq<Seq<u8>>,
    dd: bool,
    compress: bool,
)
    requires
        arrives_once_each(arrivals, blocks),
        blocks.len() <= u64::MAX,
    ensures
        deliver_all(arrivals, dd, compress) == settled(blocks, dd, compress),
        all_encodable(blocks, dd, compress) ==> deliver_all(arrivals, dd, compress).done == blocks
            && deliver_all(arrivals, dd, compress).drained(),
{
    let n = arrivals.len() as int;
    assert(arrivals.take(n) == arrivals);
    lemma_deliver_held(arrivals, blocks, dd, compress, n);
    let s = deliver_all(arrivals, dd, compress);
    let halt = s.next();
    // every position from the halt on has arrived and was not released
    assert forall|k: u64| halt <= k < blocks.len() implies s.pending.contains_key(k) by {
        lemma_every_position_arrives(arrivals, blocks, k as int);
        let j = choose|j: int| 0 <= j < arrivals.len() && (#[trigger] arrivals[j]).0 == k as int;
        assert(arrivals[j].0 < s.next() || s.pending.contains_key(arrivals[j].0));
    }
    if halt < blocks.len() {
        assert(s.pending.contains_key(halt as u64));
        assert(s.pending[halt as u64] == blocks[halt as int]);
    }
    assert forall|i: int| 0 <= i < halt implies encoding_of(
        #[trigger] blocks[i],
        dd,
        compress,
    ) is Some by {
        assert(s.done[i] == blocks[i]);
    }
    lemma_encodable_prefix(blocks, dd, compress, halt);
    let expected = settled(blocks, dd, compress);
    assert(s.done =~= expected.done);
    assert(s.pending =~= expected.pending) by {
        assert forall|k: u64| s.pending.contains_key(k) <==> expected.pending.contains_key(k) by {
            if s.pending.contains_key(k) {
                assert(s.next() <= k < blocks.len());
            }
        }
    }
    if all_encodable(blocks, dd, compress) {
        lemma_settled_when_all_encodable(blocks, dd, compress);
    }
}

/// In direct mode every block can be encoded, and the output stream is the
/// blocks themselves, joined in position order, with nothing between them.
pub proof fn lemma_direct_stream_is_the_blocks(blocks: Seq<Seq<u8>>, compress: bool)
    ensures
        all_encodable(blocks, true, compress),
        records_of(blocks, true, compress) == joined(blocks),
    decreases blocks.len(),
{
    if blocks.len() > 0 {
        lemma_direct_stream_is_the_blocks(blocks.drop_last(), compress);
    }
}

/// Neither the output nor the digest depends on the order of arrival: two
/// runs over the same blocks, each bringing every block once, leave the
/// sequencer in the same state. So the same blocks were released in the
/// same order, the same records were written, the digests were fed the
/// same bytes, and the same blocks, if any, wait behind one that cannot be
/// encoded.
pub proof fn lemma_digest_is_deterministic(
    first: Seq<(u64, Seq<u8>)>,
    second: Seq<(u64, Seq<u8>)>,
    blocks: Seq<Seq<u8>>,
    dd: bool,
    compress: bool,
    sha256: bool,
    blake3: bool,
)
    requires
        arrives_once_each(first, blocks),
        arrives_once_each(second, blocks),
        blocks.len() <= u64::MAX,
    ensures
        deliver_all(first, dd, compress) == deliver_all(second, dd, compress),
        records_of(deliver_all(first, dd, compress).done, dd, compress) == records_of(
            deliver_all(second, dd, compress).done,
            dd,
            compress,
        ),
        digest_text(sha256, blake3, joined(deliver_all(first, dd, compress).done)) == digest_text(
            sha256,
            blake3,
            joined(deliver_all(second, dd, compress).done),
        ),
        all_encodable(blocks, dd, compress) ==> digest_text(
            sha256,
            blake3,
            joined(deliver_all(first, dd, compress).done),
        ) == digest_text(sha256, blake3, joined(blocks)),
{
    lemma_arrival_order_is_immaterial(first, blocks, dd, compress);
    lemma_arrival_order_is_immaterial(second, blocks, dd, compress);
}

} // verus!
