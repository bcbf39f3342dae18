//! Imaging a source that is in memory, block after block.
//!
//! This is the pipeline without its concurrency: the blocks are read in
//! position order and handed to the sequencer as they come. By the laws of
//! `reassembly` and `fleet`, the concurrent pipeline gives the same output
//! and the same digest.

use vstd::prelude::*;
use vstd::slice::slice_subrange;

use crate::chunk::encoding_of;
use crate::digest::digest_text;
use crate::error::Error;
use crate::fleet::{
    block_at, block_count, blocks_of, lemma_block_len_is_what_is_left,
    lemma_blocks_make_the_source,
};
use crate::reader::copy_out;
use crate::reassembly::{all_encodable, records_of, Reassembly};
use crate::writer::{Sequencer, WriterParams};

verus! {

/// Images `source` in blocks of `block_size` bytes: gives the output
/// stream, which holds the record of every block in position order, and
/// the digest of the source that `params` asks for. Fails with
/// `EncodeError` exactly when some block cannot be encoded.
pub fn image(source: &[u8], block_size: usize, params: &WriterParams) -> (r: Result<
    (Vec<u8>, Option<String>),
    Error,
>)
    requires
        block_size > 0,
    ensures
        r is Ok <==> all_encodable(
            blocks_of(source@, block_size as nat),
            params.dd,
            params.compress,
        ),
        r is Err ==> r == Err::<(Vec<u8>, Option<String>), Error>(Error::EncodeError),
        r matches Ok((output, digest)) ==> output@ == records_of(
            blocks_of(source@, block_size as nat),
            params.dd,
            params.compress,
        ) && match digest {
            Some(text) => Some(text@),
            None => None,
        } == digest_text(params.sha256, params.blake3, source@),
{
    let ghost blocks = blocks_of(source@, block_size as nat);
    let ghost count = block_count(source@.len(), block_size as nat);
    let mut sequencer = Sequencer::new(params);
    let mut output: Vec<u8> = Vec::new();
    let mut offset: usize = 0;
    let mut position: u64 = 0;
    proof {
        assert(blocks.take(0) =~= Seq::<Seq<u8>>::empty());
        assert(0 * block_size == 0) by (nonlinear_arith);
        lemma_block_len_is_what_is_left(source@.len(), block_size as nat, 0);
    }
    while offset < source.len()
        invariant
            block_size > 0,
            blocks == blocks_of(source@, block_size as nat),
            count == block_count(source@.len(), block_size as nat),
            sequencer.wf(),
            sequencer.dd() == params.dd,
            sequencer.compress() == params.compress,
            sequencer.sha256() == params.sha256,
            sequencer.blake3() == params.blake3,
            position <= count,
            offset <= source@.len(),
            offset < source@.len() ==> offset == position * block_size,
            offset == source@.len() ==> position == count,
            sequencer@ == (Reassembly {
                pending: Map::empty(),
                done: blocks.take(position as int),
            }),
            output@ == records_of(blocks.take(position as int), params.dd, params.compress),
            all_encodable(blocks.take(position as int), params.dd, params.compress),
        decreases source@.len() - offset,
    {
        let n = if source.len() - offset < block_size {
            source.len() - offset
        } else {
            block_size
        };
        let block = copy_out(slice_subrange(source, offset, source.len()), n);
        let ghost k = position as int;
        proof {
            lemma_block_len_is_what_is_left(source@.len(), block_size as nat, k as nat);
            lemma_block_len_is_what_is_left(source@.len(), block_size as nat, (k + 1) as nat);
            assert((k + 1) * block_size == k * block_size + block_size) by (nonlinear_arith);
            assert(k <= k * block_size) by (nonlinear_arith)
                requires
                    block_size > 0,
                    k >= 0,
            ;
            assert(position < u64::MAX);
            assert(block@ =~= block_at(source@, block_size as nat, k as nat));
            assert(blocks[k] == block@);
            assert(blocks.take(k + 1).drop_last() =~= blocks.take(k));
            assert(blocks.take(k + 1).last() == block@);
            reveal_with_fuel(Reassembly::release, 3);
            reveal_with_fuel(records_of, 2);
        }
        let ghost before = sequencer@;
        let ghost inserted = Reassembly {
            pending: before.pending.insert(position, block@),
            done: before.done,
        };
        let accepted = sequencer.accept(position, block, &mut output);
        proof {
            assert(before.accepts(position));
            if encoding_of(blocks[k], params.dd, params.compress) is Some {
                assert(inserted.ready(params.dd, params.compress));
                let released = inserted.release_one();
                assert(released.pending =~= Map::<u64, Seq<u8>>::empty());
                assert(released.done =~= blocks.take(k + 1));
                assert(!released.ready(params.dd, params.compress));
                assert(sequencer@ == released);
                assert(sequencer@.done.skip(k) =~= seq![blocks[k]]);
                assert(seq![blocks[k]].drop_last() =~= Seq::<Seq<u8>>::empty());
            } else {
                assert(!inserted.ready(params.dd, params.compress));
                assert(sequencer@ == inserted);
                assert(sequencer@.stuck(params.dd, params.compress));
            }
        }
        match accepted {
            Ok(()) => {},
            Err(_) => {
                return Err(Error::EncodeError);
            },
        }
        proof {
            assert forall|i: int| 0 <= i < blocks.take(k + 1).len() implies encoding_of(
                #[trigger] blocks.take(k + 1)[i],
                params.dd,
                params.compress,
            ) is Some by {
                if i < k {
                    assert(blocks.take(k)[i] == blocks.take(k + 1)[i]);
                }
            }
        }
        offset = offset + n;
        position = position + 1;
    }
    proof {
        assert(blocks.take(count as int) =~= blocks);
        lemma_blocks_make_the_source(source@, block_size as nat);
    }
    match sequencer.finish() {
        Ok(digest) => Ok((output, digest)),
        Err(_) => Err(Error::EncodeError),
    }
}

} // verus!
