//! Blocks stored with a fingerprint: a 64-bit hash and the length, both
//! little-endian, in front of the bytes.

use vstd::bytes::{spec_u64_to_le_bytes, u64_to_le_bytes};
use vstd::prelude::*;

use crate::chunk::append_bytes;
use crate::hash::xxh3_64_of;

verus! {

/// Bytes of metadata in front of the data: the hash and the length.
pub const HEADER_LEN: usize = 16;

/// A block and its fingerprint.
#[derive(Debug)]
pub struct Chunk<'a> {
    /// Fingerprint of the data, by which equal blocks are found.
    pub hash: u64,
    /// Length of the data.
    pub len: usize,
    /// The block as it was read.
    pub data: &'a [u8],
}

/// The bytes that a block is stored as: the block alone in direct mode,
/// else the hash, the length and the block.
pub open spec fn stored(hash: u64, data: Seq<u8>, dd: bool) -> Seq<u8> {
    if dd {
        data
    } else {
        spec_u64_to_le_bytes(hash) + spec_u64_to_le_bytes(data.len() as u64) + data
    }
}

impl<'a> Chunk<'a> {
    /// The length and the fingerprint are those of the data.
    pub open spec fn wf(&self) -> bool {
        &&& self.len == self.data@.len()
        &&& self.hash == xxh3_64_of(self.data@)
    }

    /// Length of the whole chunk: the data and the metadata in front.
    pub fn len(&self) -> (n: usize)
        requires
            HEADER_LEN + self.len <= usize::MAX,
        ensures
            n == HEADER_LEN + self.len,
    {
        HEADER_LEN + self.len
    }

    /// The bytes that this chunk adds to an output stream: the data alone
    /// where `dd` is set, else the hash, the length and the data.
    pub fn record(&self, dd: bool) -> (bytes: Vec<u8>)
        requires
            self.wf(),
        ensures
            bytes@ == stored(self.hash, self.data@, dd),
    {
        if dd {
            let mut bytes: Vec<u8> = Vec::new();
            append_bytes(&mut bytes, self.data);
            bytes
        } else {
            let mut bytes = u64_to_le_bytes(self.hash);
            let length = u64_to_le_bytes(self.len as u64);
            append_bytes(&mut bytes, length.as_slice());
            append_bytes(&mut bytes, self.data);
            bytes
        }
    }
}

impl<'a> From<&'a [u8]> for Chunk<'a> {
    fn from(bytes: &'a [u8]) -> (chunk: Chunk<'a>) {
        Chunk { hash: xxhash_rust::xxh3::xxh3_64(bytes), len: bytes.len(), data: bytes }
    }
}

impl<'a> vstd::std_specs::convert::FromSpecImpl<&'a [u8]> for Chunk<'a> {
    open spec fn obeys_from_spec() -> bool {
        true
    }

    open spec fn from_spec(bytes: &'a [u8]) -> Chunk<'a> {
        Chunk { hash: xxh3_64_of(bytes@), len: bytes@.len() as usize, data: bytes }
    }
}

} // verus!
