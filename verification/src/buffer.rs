//! Plain byte buffers and the all-zero test used to classify blocks.

use vstd::prelude::*;

verus! {

/// Whether every byte of `bytes` is zero. The empty sequence is all-zero.
pub open spec fn all_zero(bytes: Seq<u8>) -> bool {
    forall|i: int| 0 <= i < bytes.len() ==> bytes[i] == 0
}

/// An owned run of bytes read from the source.
pub struct Buffer(pub Vec<u8>);

impl View for Buffer {
    type V = Seq<u8>;

    open spec fn view(&self) -> Seq<u8> {
        self.0@
    }
}

impl Buffer {
    /// An empty buffer with room for `capa` bytes.
    pub fn with_capacity(capa: usize) -> (buffer: Buffer)
        ensures
            buffer@ == Seq::<u8>::empty(),
    {
        Buffer(Vec::with_capacity(capa))
    }

    /// Tests whether the buffer holds nothing but zero bytes.
    pub fn is_zero(&self) -> (zero: bool)
        ensures
            zero == all_zero(self@),
    {
        is_zero(self.0.as_slice())
    }

    /// The bytes held, as a slice.
    pub fn as_slice(&self) -> (bytes: &[u8])
        ensures
            bytes@ == self@,
    {
        self.0.as_slice()
    }

    /// Gives the bytes back as a vector.
    pub fn into_vec(self) -> (bytes: Vec<u8>)
        ensures
            bytes@ == self@,
    {
        self.0
    }
}

impl From<Vec<u8>> for Buffer {
    fn from(v: Vec<u8>) -> (buffer: Buffer) {
        Buffer(v)
    }
}

impl vstd::std_specs::convert::FromSpecImpl<Vec<u8>> for Buffer {
    open spec fn obeys_from_spec() -> bool {
        true
    }

    open spec fn from_spec(v: Vec<u8>) -> Buffer {
        Buffer(v)
    }
}

/// Tests whether `buf` holds nothing but zero bytes.
pub fn is_zero(buf: &[u8]) -> (zero: bool)
    ensures
        zero == all_zero(buf@),
{
    let mut i: usize = 0;
    while i < buf.len()
        invariant
            i <= buf.len(),
            forall|j: int| 0 <= j < i ==> buf@[j] == 0,
        decreases buf.len() - i,
    {
        if buf[i] != 0 {
            return false;
        }
        i += 1;
    }
    true
}

} // verus!
