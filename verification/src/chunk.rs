//! Chunks: the encoded form of one block, and the records they are stored as.
//!
//! A framed record is an 8-byte big-endian payload length, a one-byte type
//! tag and the payload. A direct chunk is stored as its bytes alone.

use std::borrow::Cow;
use vstd::prelude::*;

use crate::buffer::{all_zero, is_zero};
use crate::error::Error;
use crate::hash::xxh3_128_of;

verus! {

/// The largest input that the block compressor accepts, in bytes.
pub const LZ4_MAX_INPUT_SIZE: usize = 0x7E00_0000;

/// Bytes of metadata that `Chunk::len` counts in front of the payload.
pub const CHUNK_HEADER_LEN: usize = 16;

/// What the LZ4 block compressor of this build makes of `src` in its
/// default mode and without a size prefix; `None` where it refuses the
/// input. The compressor picks its tables by the width of the machine's
/// words, so the bytes are those of one build, not of every build.
pub uninterp spec fn lz4_block(src: Seq<u8>) -> Option<Seq<u8>>;

/// The error type of the compressor.
#[verifier::external_type_specification]
#[verifier::external_body]
pub struct ExIoError(std::io::Error);

/// `lz4::block::compress(src, None, false)`. Trusted: within one build the
/// outcome depends on the bytes alone, and the input is refused exactly when
/// it is longer than `LZ4_MAX_INPUT_SIZE` (the output buffer is sized by
/// `LZ4_compressBound`, for which the compressor guarantees success).
#[verifier::external_body]
fn lz4_compress(src: &[u8]) -> (r: Result<Vec<u8>, std::io::Error>)
    ensures
        lz4_block(src@) == match r {
            Ok(out) => Some(out@),
            Err(_) => None,
        },
        r is Ok <==> src@.len() <= LZ4_MAX_INPUT_SIZE,
{
    lz4::block::compress(src, None, false)
}

/// The kinds of chunk.
#[derive(Debug, Copy, Clone, PartialEq, Eq, Structural)]
pub enum ChunkType {
    /// A block of zero bytes only; no payload is stored.
    Zero,
    /// The block as it was read.
    Raw,
    /// The block compressed with LZ4.
    Compressed,
    /// The block as it was read, stored without any framing.
    Direct,
}

impl Default for ChunkType {
    fn default() -> (t: ChunkType)
        ensures
            t == ChunkType::Raw,
    {
        ChunkType::Raw
    }
}

impl ChunkType {
    /// The byte that stands for this type in a framed record.
    pub open spec fn tag_of(self) -> u8 {
        match self {
            ChunkType::Zero => 0,
            ChunkType::Raw => 1,
            ChunkType::Compressed => 2,
            ChunkType::Direct => 3,
        }
    }

    /// The byte that stands for this type in a framed record.
    pub fn tag(self) -> (t: u8)
        ensures
            t == self.tag_of(),
    {
        match self {
            ChunkType::Zero => 0,
            ChunkType::Raw => 1,
            ChunkType::Compressed => 2,
            ChunkType::Direct => 3,
        }
    }
}

/// `n` as eight bytes, most significant first.
pub open spec fn length_prefix(n: u64) -> Seq<u8> {
    seq![
        (n / 0x100_0000_0000_0000) as u8,
        (n / 0x1_0000_0000_0000 % 0x100) as u8,
        (n / 0x100_0000_0000 % 0x100) as u8,
        (n / 0x1_0000_0000 % 0x100) as u8,
        (n / 0x100_0000 % 0x100) as u8,
        (n / 0x1_0000 % 0x100) as u8,
        (n / 0x100 % 0x100) as u8,
        (n % 0x100) as u8,
    ]
}

/// The number that eight bytes stand for, most significant first.
pub open spec fn length_of_prefix(prefix: Seq<u8>) -> int
    recommends
        prefix.len() == 8,
{
    prefix[0] * 0x100_0000_0000_0000 + prefix[1] * 0x1_0000_0000_0000 + prefix[2]
        * 0x100_0000_0000 + prefix[3] * 0x1_0000_0000 + prefix[4] * 0x100_0000 + prefix[5]
        * 0x1_0000 + prefix[6] * 0x100 + prefix[7]
}

/// The length prefix can be read back: it determines the length.
pub proof fn lemma_length_prefix_decodes(n: u64)
    ensures
        length_prefix(n).len() == 8,
        length_of_prefix(length_prefix(n)) == n,
{
    let r0 = n as int;
    let r1 = r0 / 0x100;
    let r2 = r1 / 0x100;
    let r3 = r2 / 0x100;
    let r4 = r3 / 0x100;
    let r5 = r4 / 0x100;
    let r6 = r5 / 0x100;
    let r7 = r6 / 0x100;
    assert(r2 == r0 / 0x1_0000);
    assert(r3 == r0 / 0x100_0000);
    assert(r4 == r0 / 0x1_0000_0000);
    assert(r5 == r0 / 0x100_0000_0000);
    assert(r6 == r0 / 0x1_0000_0000_0000);
    assert(r7 == r0 / 0x100_0000_0000_0000);
    assert(r7 < 0x100);
    let p = length_prefix(n);
    assert(p[7] == r0 - r1 * 0x100);
    assert(p[6] == r1 - r2 * 0x100);
    assert(p[5] == r2 - r3 * 0x100);
    assert(p[4] == r3 - r4 * 0x100);
    assert(p[3] == r4 - r5 * 0x100);
    assert(p[2] == r5 - r6 * 0x100);
    assert(p[1] == r6 - r7 * 0x100);
    assert(p[0] == r7);
}

/// The record that a chunk of type `chunk_type` with payload `payload` is
/// stored as.
pub open spec fn record_of(chunk_type: ChunkType, payload: Seq<u8>) -> Seq<u8> {
    match chunk_type {
        ChunkType::Direct => payload,
        ChunkType::Zero => length_prefix(0).push(chunk_type.tag_of()),
        _ => length_prefix(payload.len() as u64).push(chunk_type.tag_of()) + payload,
    }
}

/// The type of chunk that a block becomes. Direct mode comes first, then
/// compression; otherwise a block of zeros is told apart from the rest.
pub open spec fn classify(bytes: Seq<u8>, dd: bool, compress: bool) -> ChunkType {
    if dd {
        ChunkType::Direct
    } else if compress {
        ChunkType::Compressed
    } else if all_zero(bytes) {
        ChunkType::Zero
    } else {
        ChunkType::Raw
    }
}

/// The payload of the chunk that a block becomes; `None` where the block
/// cannot be compressed.
pub open spec fn payload_of(bytes: Seq<u8>, dd: bool, compress: bool) -> Option<Seq<u8>> {
    match classify(bytes, dd, compress) {
        ChunkType::Compressed => lz4_block(bytes),
        ChunkType::Zero => Some(Seq::empty()),
        _ => Some(bytes),
    }
}

/// The record that a block is stored as; `None` where the block cannot be
/// compressed.
pub open spec fn encoding_of(bytes: Seq<u8>, dd: bool, compress: bool) -> Option<Seq<u8>> {
    match payload_of(bytes, dd, compress) {
        Some(payload) => Some(record_of(classify(bytes, dd, compress), payload)),
        None => None,
    }
}

/// `n` as eight bytes, most significant first.
pub fn encode_length(n: u64) -> (prefix: Vec<u8>)
    ensures
        prefix@ == length_prefix(n),
{
    let mut prefix: Vec<u8> = Vec::with_capacity(8);
    prefix.push((n / 0x100_0000_0000_0000) as u8);
    prefix.push((n / 0x1_0000_0000_0000 % 0x100) as u8);
    prefix.push((n / 0x100_0000_0000 % 0x100) as u8);
    prefix.push((n / 0x1_0000_0000 % 0x100) as u8);
    prefix.push((n / 0x100_0000 % 0x100) as u8);
    prefix.push((n / 0x1_0000 % 0x100) as u8);
    prefix.push((n / 0x100 % 0x100) as u8);
    prefix.push((n % 0x100) as u8);
    prefix
}

/// Appends `bytes` to `out`.
pub fn append_bytes(out: &mut Vec<u8>, bytes: &[u8])
    ensures
        final(out)@ == old(out)@ + bytes@,
{
    let mut i: usize = 0;
    while i < bytes.len()
        invariant
            i <= bytes.len(),
            out@ == old(out)@ + bytes@.subrange(0, i as int),
        decreases bytes.len() - i,
    {
        out.push(bytes[i]);
        i += 1;
    }
    assert(bytes@.subrange(0, bytes@.len() as int) == bytes@);
}

/// The record of a chunk of type `chunk_type` with payload `payload`.
pub fn frame(chunk_type: ChunkType, payload: &[u8]) -> (record: Vec<u8>)
    ensures
        record@ == record_of(chunk_type, payload@),
{
    match chunk_type {
        ChunkType::Direct => {
            let mut record: Vec<u8> = Vec::new();
            append_bytes(&mut record, payload);
            record
        },
        ChunkType::Zero => {
            let mut record = encode_length(0);
            record.push(chunk_type.tag());
            record
        },
        _ => {
            let mut record = encode_length(payload.len() as u64);
            record.push(chunk_type.tag());
            append_bytes(&mut record, payload);
            record
        },
    }
}

/// Zero blocks are told apart exactly: a block is stored as a zero chunk,
/// that is as a zero length under the zero tag and nothing more, if and only if
/// it holds zero bytes alone and neither direct mode nor compression is on;
/// with a byte that is not zero it is stored under the raw tag, whole.
pub proof fn lemma_zero_block_detection(bytes: Seq<u8>, dd: bool, compress: bool)
    ensures
        classify(bytes, dd, compress) == ChunkType::Zero <==> !dd && !compress && all_zero(bytes),
        all_zero(bytes) ==> encoding_of(bytes, false, false) == Some(
            length_prefix(0).push(ChunkType::Zero.tag_of()),
        ),
        !all_zero(bytes) ==> encoding_of(bytes, false, false) == Some(
            length_prefix(bytes.len() as u64).push(ChunkType::Raw.tag_of()) + bytes,
        ),
        !all_zero(bytes) ==> encoding_of(bytes, false, false)->0[8] != ChunkType::Zero.tag_of(),
{
}

/// In direct mode a block is stored as itself, with nothing added.
pub proof fn lemma_direct_is_verbatim(bytes: Seq<u8>, compress: bool)
    ensures
        encoding_of(bytes, true, compress) == Some(bytes),
{
}

/// Encodes one block: classifies it and gives the record that it is stored
/// as. The record depends on the bytes and the two modes alone. Fails with
/// `EncodeError` exactly when compression is wanted and the block is too
/// long for the compressor.
pub fn encode(bytes: &[u8], dd: bool, compress: bool) -> (r: Result<Vec<u8>, Error>)
    ensures
        encoding_of(bytes@, dd, compress) == match r {
            Ok(record) => Some(record@),
            Err(_) => None,
        },
        r is Err ==> r == Err::<Vec<u8>, Error>(Error::EncodeError),
        r is Err <==> !dd && compress && bytes@.len() > LZ4_MAX_INPUT_SIZE,
{
    match Chunk::try_from((bytes, dd, compress)) {
        Ok(chunk) => chunk.record(dd),
        Err(e) => Err(e),
    }
}

/// One block in the form in which it is stored.
#[derive(Debug)]
pub struct Chunk<'a> {
    /// What the payload holds.
    pub chunk_type: ChunkType,
    /// Fingerprint of the payload, by which equal chunks are found; absent
    /// from zero and direct chunks.
    pub hash: Option<u128>,
    /// Length of the payload; absent from zero and direct chunks.
    pub len: Option<usize>,
    /// The payload: the block itself, or what was made of it.
    pub data: Cow<'a, [u8]>,
}

impl<'a> Chunk<'a> {
    /// The payload as a sequence of bytes.
    pub open spec fn payload(&self) -> Seq<u8> {
        self.data@
    }

    /// Well-formed chunks carry a length and a fingerprint exactly when they
    /// are framed with a payload, and both are those of the payload.
    pub open spec fn wf(&self) -> bool {
        match self.chunk_type {
            ChunkType::Raw | ChunkType::Compressed => {
                &&& self.len == Some(self.payload().len() as usize)
                &&& self.hash == Some(xxh3_128_of(self.payload()))
            },
            ChunkType::Zero => {
                &&& self.len is None
                &&& self.hash is None
                &&& self.payload().len() == 0
            },
            ChunkType::Direct => {
                &&& self.len is None
                &&& self.hash is None
            },
        }
    }

    /// Whether this is the chunk that the block `bytes` becomes under the
    /// given modes.
    pub open spec fn is_chunk_of(&self, bytes: Seq<u8>, dd: bool, compress: bool) -> bool {
        &&& self.wf()
        &&& self.chunk_type == classify(bytes, dd, compress)
        &&& Some(self.payload()) == payload_of(bytes, dd, compress)
    }

    /// The payload.
    pub fn bytes(&self) -> (payload: &[u8])
        ensures
            payload@ == self.payload(),
    {
        match &self.data {
            Cow::Borrowed(b) => b,
            Cow::Owned(v) => v.as_slice(),
        }
    }

    /// A framed chunk of type `chunk_type` that owns `payload`.
    pub fn framed(chunk_type: ChunkType, payload: Vec<u8>) -> (chunk: Chunk<'a>)
        requires
            chunk_type == ChunkType::Raw || chunk_type == ChunkType::Compressed,
        ensures
            chunk.wf(),
            chunk.chunk_type == chunk_type,
            chunk.payload() == payload@,
    {
        Chunk {
            chunk_type,
            hash: Some(xxhash_rust::xxh3::xxh3_128(payload.as_slice())),
            len: Some(payload.len()),
            data: Cow::Owned(payload),
        }
    }

    /// Classifies the block `value.0` and builds its chunk. `value.1` asks
    /// for direct mode, `value.2` for compression; direct mode wins. Fails
    /// with `EncodeError` exactly when compression is wanted and the block
    /// is too long for the compressor.
    pub fn try_from(value: (&'a [u8], bool, bool)) -> (r: Result<Chunk<'a>, Error>)
        ensures
            match r {
                Ok(chunk) => chunk.is_chunk_of(value.0@, value.1, value.2),
                Err(e) => e == Error::EncodeError && payload_of(value.0@, value.1, value.2)
                    is None,
            },
            r is Err <==> !value.1 && value.2 && value.0@.len() > LZ4_MAX_INPUT_SIZE,
    {
        let (data, dd_mode, compression_on) = value;
        if dd_mode {
            Ok(Chunk { chunk_type: ChunkType::Direct, hash: None, len: None, data: Cow::Borrowed(data) })
        } else if compression_on {
            match lz4_compress(data) {
                Ok(compressed) => Ok(Chunk::framed(ChunkType::Compressed, compressed)),
                Err(_) => Err(Error::EncodeError),
            }
        } else if is_zero(data) {
            Ok(Chunk { chunk_type: ChunkType::Zero, hash: None, len: None, data: Cow::Owned(Vec::new()) })
        } else {
            Ok(Chunk {
                chunk_type: ChunkType::Raw,
                hash: Some(xxhash_rust::xxh3::xxh3_128(data)),
                len: Some(data.len()),
                data: Cow::Borrowed(data),
            })
        }
    }

    /// Length of the whole chunk: the payload and the metadata in front.
    pub fn len(&self) -> (n: usize)
        requires
            self.len matches Some(l) ==> CHUNK_HEADER_LEN + l <= usize::MAX,
        ensures
            n == CHUNK_HEADER_LEN + match self.len {
                Some(l) => l,
                None => 0,
            },
    {
        match self.len {
            Some(l) => CHUNK_HEADER_LEN + l,
            None => CHUNK_HEADER_LEN,
        }
    }

    /// The bytes that this chunk adds to an output stream. `dd` says
    /// whether the stream is a direct one: a direct stream takes direct
    /// chunks only and a framed stream none, everything else is
    /// `MixedModes`.
    pub fn record(&self, dd: bool) -> (r: Result<Vec<u8>, Error>)
        ensures
            match r {
                Ok(bytes) => bytes@ == record_of(self.chunk_type, self.payload()),
                Err(e) => e == Error::MixedModes,
            },
            r is Ok <==> (dd <==> self.chunk_type == ChunkType::Direct),
    {
        let direct = match self.chunk_type {
            ChunkType::Direct => true,
            _ => false,
        };
        if dd != direct {
            return Err(Error::MixedModes);
        }
        Ok(frame(self.chunk_type, self.bytes()))
    }
}

} // verus!
