//! The sequencer: the single consumer that puts blocks back into source
//! order, feeds the digests and encodes the output stream.

use std::collections::BTreeMap;
use vstd::prelude::*;

use crate::args::Args;
use crate::chunk::{append_bytes, encode};
use crate::digest::{digest_text, Digests, DIGEST_TEXT_LEN};
use crate::error::Error;
use crate::reassembly::{joined, records_of, Reassembly};

verus! {

/// What the sequencer is asked to do with the blocks.
#[derive(Debug, Default)]
pub struct WriterParams {
    /// Copy the source as it is, without framing.
    pub dd: bool,
    /// Compress every block with LZ4.
    pub compress: bool,
    /// Compute the SHA-256 digest of the source.
    pub sha256: bool,
    /// Compute the BLAKE3 digest of the source.
    pub blake3: bool,
    /// Where the output goes, if anywhere.
    pub output_file: Option<String>,
}

impl<'a> From<&'a Args> for WriterParams {
    fn from(args: &'a Args) -> (params: WriterParams) {
        WriterParams {
            dd: args.dd,
            compress: args.compress,
            sha256: args.sha256,
            blake3: args.blake3,
            output_file: Some(args.output.clone()),
        }
    }
}

impl<'a> vstd::std_specs::convert::FromSpecImpl<&'a Args> for WriterParams {
    open spec fn obeys_from_spec() -> bool {
        true
    }

    open spec fn from_spec(args: &'a Args) -> WriterParams {
        WriterParams {
            dd: args.dd,
            compress: args.compress,
            sha256: args.sha256,
            blake3: args.blake3,
            output_file: Some(args.output),
        }
    }
}

/// The blocks that wait, as sequences of bytes.
pub open spec fn bytes_of(pending: Map<u64, Vec<u8>>) -> Map<u64, Seq<u8>> {
    Map::new(|k: u64| pending.contains_key(k), |k: u64| pending[k]@)
}

/// Restores position order among blocks that arrive in any order.
pub struct Sequencer {
    dd: bool,
    compress: bool,
    digests: Digests,
    pending: BTreeMap<u64, Vec<u8>>,
    next_block: u64,
    done: Ghost<Seq<Seq<u8>>>,
}

impl View for Sequencer {
    type V = Reassembly;

    closed spec fn view(&self) -> Reassembly {
        Reassembly { pending: bytes_of(self.pending@), done: self.done@ }
    }
}

impl Sequencer {
    /// Whether the output is a direct copy.
    pub closed spec fn dd(&self) -> bool {
        self.dd
    }

    /// Whether blocks are compressed.
    pub closed spec fn compress(&self) -> bool {
        self.compress
    }

    /// Whether the SHA-256 digest is kept.
    pub closed spec fn sha256(&self) -> bool {
        self.digests.sha256_on()
    }

    /// Whether the BLAKE3 digest is kept.
    pub closed spec fn blake3(&self) -> bool {
        self.digests.blake3_on()
    }

    /// The digests have been fed the blocks released, in their order, and
    /// the counter stands behind the last of them. No position that waits is
    /// the largest number there is.
    pub closed spec fn wf(&self) -> bool {
        &&& self.digests.wf()
        &&& self.digests.message() == joined(self.done@)
        &&& self.next_block == self.done@.len()
        &&& forall|k: u64| #[trigger] self.pending@.contains_key(k) ==> k < u64::MAX
    }

    /// A sequencer that has seen nothing, with the modes and digests that
    /// `params` asks for.
    pub fn new(params: &WriterParams) -> (s: Sequencer)
        ensures
            s.wf(),
            s@ == Reassembly::start(),
            s.dd() == params.dd,
            s.compress() == params.compress,
            s.sha256() == params.sha256,
            s.blake3() == params.blake3,
    {
        let s = Sequencer {
            dd: params.dd,
            compress: params.compress,
            digests: Digests::new(params.sha256, params.blake3),
            pending: BTreeMap::new(),
            next_block: 0,
            done: Ghost(Seq::empty()),
        };
        assert(s@.pending =~= Map::<u64, Seq<u8>>::empty());
        s
    }

    /// The position that is released next.
    pub fn next_expected(&self) -> (next: u64)
        requires
            self.wf(),
        ensures
            next == self@.next(),
    {
        self.next_block
    }

    /// The number of blocks that wait for an earlier one.
    pub fn pending_len(&self) -> (n: usize)
        ensures
            n == self@.pending.len(),
    {
        assert(bytes_of(self.pending@).dom() =~= self.pending@.dom());
        self.pending.len()
    }

    // Releases blocks for as long as the next one is here and can be encoded.
    fn release(&mut self, sink: &mut Vec<u8>) -> (r: Result<(), Error>)
        requires
            old(self).wf(),
        ensures
            final(self).wf(),
            final(self).dd() == old(self).dd(),
            final(self).compress() == old(self).compress(),
            final(self).sha256() == old(self).sha256(),
            final(self).blake3() == old(self).blake3(),
            final(self)@ == old(self)@.release(old(self).dd(), old(self).compress()),
            final(self)@.done.len() >= old(self)@.done.len(),
            final(sink)@ == old(sink)@ + records_of(
                final(self)@.done.skip(old(self)@.done.len() as int),
                old(self).dd(),
                old(self).compress(),
            ),
            r == if final(self)@.stuck(old(self).dd(), old(self).compress()) {
                Err::<(), Error>(Error::EncodeError)
            } else {
                Ok::<(), Error>(())
            },
    {
        let ghost target = self@.release(self.dd, self.compress);
        let ghost first = self.done@.len() as int;
        assert(self.done@.skip(first) =~= Seq::<Seq<u8>>::empty());
        loop
            invariant
                self.wf(),
                self.dd == old(self).dd,
                self.compress == old(self).compress,
                self.sha256() == old(self).sha256(),
                self.blake3() == old(self).blake3(),
                first == old(self)@.done.len(),
                first <= self.done@.len(),
                self@.release(self.dd, self.compress) == target,
                target == old(self)@.release(old(self).dd(), old(self).compress()),
                sink@ == old(sink)@ + records_of(self.done@.skip(first), self.dd, self.compress),
            decreases u64::MAX - self.next_block,
        {
            let ghost before = self@;
            match self.pending.remove(&self.next_block) {
                None => {
                    assert(self@ =~= before) by {
                        assert(self@.pending =~= before.pending);
                    }
                    assert(!before.pending.contains_key(before.next() as u64));
                    return Ok(());
                },
                Some(block) => {
                    assert(before.pending.contains_key(self.next_block));
                    assert(before.pending[self.next_block] == block@);
                    match encode(block.as_slice(), self.dd, self.compress) {
                        Err(_) => {
                            self.pending.insert(self.next_block, block);
                            assert(self@.pending =~= before.pending);
                            assert(self@ =~= before);
                            return Err(Error::EncodeError);
                        },
                        Ok(record) => {
                            self.digests.update(block.as_slice());
                            append_bytes(sink, record.as_slice());
                            self.next_block = self.next_block + 1;
                            self.done = Ghost(self.done@.push(block@));
                            proof {
                                assert(before.ready(self.dd, self.compress));
                                assert(self@.pending =~= before.release_one().pending);
                                assert(self@ =~= before.release_one());
                                assert(self.done@.drop_last() =~= before.done);
                                let tail = self.done@.skip(first);
                                assert(tail.drop_last() =~= before.done.skip(first));
                                assert(tail.last() == block@);
                            }
                        },
                    }
                },
            }
        }
    }

    /// Takes in the block `bytes` of position `position` and appends to
    /// `sink` the records of all the blocks that this releases, in position
    /// order.
    ///
    /// A position that was released already, or that waits, is an
    /// `OrderingViolation` and changes nothing. A block that cannot be
    /// encoded stays where it is, with all that follow it, and gives
    /// `EncodeError` for as long as it is the next one.
    pub fn accept(&mut self, position: u64, bytes: Vec<u8>, sink: &mut Vec<u8>) -> (r: Result<
        (),
        Error,
    >)
        requires
            old(self).wf(),
            position < u64::MAX,
        ensures
            final(self).wf(),
            final(self).dd() == old(self).dd(),
            final(self).compress() == old(self).compress(),
            final(self).sha256() == old(self).sha256(),
            final(self).blake3() == old(self).blake3(),
            final(self)@ == old(self)@.arrive(
                position,
                bytes@,
                old(self).dd(),
                old(self).compress(),
            ),
            final(self)@.done.len() >= old(self)@.done.len(),
            final(sink)@ == old(sink)@ + records_of(
                final(self)@.done.skip(old(self)@.done.len() as int),
                old(self).dd(),
                old(self).compress(),
            ),
            r == if !old(self)@.accepts(position) {
                Err::<(), Error>(Error::OrderingViolation)
            } else if final(self)@.stuck(old(self).dd(), old(self).compress()) {
                Err::<(), Error>(Error::EncodeError)
            } else {
                Ok::<(), Error>(())
            },
    {
        if position < self.next_block || self.pending.contains_key(&position) {
            assert(self.done@.skip(self.done@.len() as int) =~= Seq::<Seq<u8>>::empty());
            return Err(Error::OrderingViolation);
        }
        let ghost before = self@;
        self.pending.insert(position, bytes);
        assert(self@.pending =~= before.pending.insert(position, bytes@));
        self.release(sink)
    }

    /// Ends the stream. Blocks that still wait mean that a position never
    /// came: that is an `OrderingViolation`. Otherwise the result is the
    /// digest of the source as text: that of SHA-256 where it was asked for,
    /// else that of BLAKE3, else none.
    pub fn finish(self) -> (r: Result<Option<String>, Error>)
        requires
            self.wf(),
        ensures
            r is Ok <==> self@.drained(),
            r is Err ==> r == Err::<Option<String>, Error>(Error::OrderingViolation),
            r matches Ok(text) ==> match text {
                Some(t) => Some(t@),
                None => None,
            } == digest_text(self.sha256(), self.blake3(), joined(self@.done)),
            r matches Ok(Some(t)) ==> t@.len() == DIGEST_TEXT_LEN,
    {
        assert(bytes_of(self.pending@).dom() =~= self.pending@.dom());
        if !self.pending.is_empty() {
            return Err(Error::OrderingViolation);
        }
        assert(self@.pending =~= Map::<u64, Seq<u8>>::empty());
        Ok(self.digests.finalize())
    }
}

} // verus!
