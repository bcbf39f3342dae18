//! Page-aligned buffers and the pool that hands them out.
//!
//! A pool owns a fixed set of buffers of one block each. A reader checks a
//! buffer out of its slot before it submits a read into it and gives it
//! back afterwards. A slot holds its buffer or holds nothing, so no buffer
//! is ever with two reads at once.

use aligned_vec::{AVec, ConstAlign};
use vstd::prelude::*;

use crate::error::Error;
use crate::hash::zeros;
use crate::reader::copy_out;

verus! {

/// Alignment of every buffer, in bytes. It is that of a page, also where
/// the sectors of the source are smaller.
pub const BUFFER_ALIGN: usize = 4096;

/// The largest buffer that can be had: its size rounded up to the
/// alignment must not pass `isize::MAX`.
pub open spec fn max_buffer_size() -> int {
    isize::MAX - (BUFFER_ALIGN - 1)
}

/// A buffer whose memory starts at a multiple of `BUFFER_ALIGN`. The memory
/// is an aligned vector of the `aligned_vec` crate, which is generic over a
/// sealed trait of that crate and so is held here as a whole.
#[verifier::external_body]
pub struct AlignedBuffer {
    data: AVec<u8, ConstAlign<4096>>,
}

/// The bytes that a buffer holds.
pub uninterp spec fn aligned_bytes(buffer: AlignedBuffer) -> Seq<u8>;

/// The alignment that a buffer was made with.
pub uninterp spec fn aligned_to(buffer: AlignedBuffer) -> usize;

impl View for AlignedBuffer {
    type V = Seq<u8>;

    open spec fn view(&self) -> Seq<u8> {
        aligned_bytes(*self)
    }
}

impl AlignedBuffer {
    /// `AVec::from_iter` with the alignment taken from the type. Trusted:
    /// the vector holds the items of the iterator, here `size` zeros, and
    /// its alignment is the larger of the type's constant and that of a
    /// byte. It panics on a size that, rounded up to the alignment, does not
    /// fit; those sizes are left out.
    #[verifier::external_body]
    fn avec_zeroed(size: usize) -> (buffer: AlignedBuffer)
        requires
            size <= max_buffer_size(),
        ensures
            aligned_bytes(buffer) == zeros(size as nat),
            aligned_to(buffer) == BUFFER_ALIGN,
    {
        AlignedBuffer { data: AVec::from_iter(0, std::iter::repeat(0u8).take(size)) }
    }

    /// A buffer of `size` zero bytes, aligned to `BUFFER_ALIGN`.
    pub fn new(size: usize) -> (buffer: AlignedBuffer)
        requires
            size <= max_buffer_size(),
        ensures
            buffer@ == zeros(size as nat),
            aligned_to(buffer) == BUFFER_ALIGN,
    {
        AlignedBuffer::avec_zeroed(size)
    }

    /// `AVec::as_slice`. Trusted: the slice is the bytes held.
    #[verifier::external_body]
    fn avec_slice(&self) -> (bytes: &[u8])
        ensures
            bytes@ == aligned_bytes(*self),
    {
        self.data.as_slice()
    }

    /// `AVec::as_mut_slice`. Trusted: the slice is the bytes held, and what
    /// is written to it is held afterwards; the alignment stays.
    #[verifier::external_body]
    fn avec_mut_slice(&mut self) -> (bytes: &mut [u8])
        ensures
            bytes@ == aligned_bytes(*old(self)),
            aligned_bytes(*final(self)) == final(bytes)@,
            aligned_to(*final(self)) == aligned_to(*old(self)),
    {
        self.data.as_mut_slice()
    }

    /// `AVec::alignment`. Trusted: the alignment that the vector was made
    /// with.
    #[verifier::external_body]
    fn avec_alignment(&self) -> (align: usize)
        ensures
            align == aligned_to(*self),
    {
        self.data.alignment()
    }

    /// The bytes held.
    pub fn as_slice(&self) -> (bytes: &[u8])
        ensures
            bytes@ == self@,
    {
        self.avec_slice()
    }

    /// The bytes held, to be written to. Neither the length nor the
    /// alignment can change through the slice.
    pub fn as_mut_slice(&mut self) -> (bytes: &mut [u8])
        ensures
            bytes@ == old(self)@,
            final(self)@ == final(bytes)@,
            aligned_to(*final(self)) == aligned_to(*old(self)),
    {
        self.avec_mut_slice()
    }

    /// Whether the buffer starts at a multiple of `BUFFER_ALIGN`.
    pub fn is_page_aligned(&self) -> (yes: bool)
        ensures
            yes == (aligned_to(*self) == BUFFER_ALIGN),
    {
        self.avec_alignment() == BUFFER_ALIGN
    }

    /// The number of bytes held.
    pub fn len(&self) -> (n: usize)
        ensures
            n == self@.len(),
    {
        self.avec_slice().len()
    }

    /// The first `n` bytes, copied out so that the buffer can be used
    /// again.
    pub fn copy_out(&self, n: usize) -> (bytes: Vec<u8>)
        requires
            n <= self@.len(),
        ensures
            bytes@ == self@.subrange(0, n as int),
    {
        copy_out(self.avec_slice(), n)
    }
}

/// What the slots of a pool hold: the bytes of the buffer, or nothing
/// while the buffer is checked out.
pub open spec fn slot_views(slots: Seq<Option<AlignedBuffer>>) -> Seq<Option<Seq<u8>>> {
    Seq::new(
        slots.len(),
        |i: int|
            match slots[i] {
                Some(buffer) => Some(buffer@),
                None => None,
            },
    )
}

/// A fixed set of aligned buffers, one to a slot.
pub struct BufferPool {
    block_size: usize,
    slots: Vec<Option<AlignedBuffer>>,
}

impl View for BufferPool {
    type V = Seq<Option<Seq<u8>>>;

    closed spec fn view(&self) -> Seq<Option<Seq<u8>>> {
        slot_views(self.slots@)
    }
}

impl BufferPool {
    /// The size of every buffer.
    pub closed spec fn block_size(&self) -> usize {
        self.block_size
    }

    /// Every buffer in the pool is one block long and page-aligned.
    pub closed spec fn wf(&self) -> bool {
        forall|i: int|
            0 <= i < self.slots@.len() ==> (#[trigger] self.slots@[i] matches Some(buffer)
                ==> buffer@.len() == self.block_size && aligned_to(buffer) == BUFFER_ALIGN)
    }

    /// Whether `buffer` is one that this pool takes: a block long and
    /// page-aligned.
    pub open spec fn fits(&self, buffer: AlignedBuffer) -> bool {
        buffer@.len() == self.block_size() && aligned_to(buffer) == BUFFER_ALIGN
    }

    /// Whether slot `slot` is there and holds its buffer.
    pub open spec fn available(&self, slot: int) -> bool {
        0 <= slot < self@.len() && self@[slot] is Some
    }

    /// A pool of `count` buffers of `block_size` zero bytes each, all of
    /// them in their slots.
    pub fn new(block_size: usize, count: usize) -> (pool: BufferPool)
        requires
            block_size <= max_buffer_size(),
        ensures
            pool.wf(),
            pool.block_size() == block_size,
            pool@ == Seq::new(count as nat, |i: int| Some(zeros(block_size as nat))),
    {
        let mut slots: Vec<Option<AlignedBuffer>> = Vec::with_capacity(count);
        let mut i: usize = 0;
        while i < count
            invariant
                i <= count,
                block_size <= max_buffer_size(),
                slots@.len() == i,
                forall|j: int|
                    0 <= j < i ==> (#[trigger] slots@[j] matches Some(buffer) && buffer@ == zeros(
                        block_size as nat,
                    ) && aligned_to(buffer) == BUFFER_ALIGN),
            decreases count - i,
        {
            slots.push(Some(AlignedBuffer::new(block_size)));
            i += 1;
        }
        let pool = BufferPool { block_size, slots };
        assert(pool@ =~= Seq::new(count as nat, |i: int| Some(zeros(block_size as nat))));
        pool
    }

    /// The number of slots.
    pub fn count(&self) -> (n: usize)
        ensures
            n == self@.len(),
    {
        self.slots.len()
    }

    /// Whether slot `slot` is there and holds its buffer.
    pub fn is_available(&self, slot: usize) -> (yes: bool)
        ensures
            yes == self.available(slot as int),
    {
        if slot >= self.slots.len() {
            return false;
        }
        self.slots[slot].is_some()
    }

    /// Takes the buffer out of slot `slot`. A slot whose buffer is out, or
    /// that is not there, gives `ExhaustedPool` and nothing changes.
    pub fn check_out(&mut self, slot: usize) -> (r: Result<AlignedBuffer, Error>)
        requires
            old(self).wf(),
        ensures
            final(self).wf(),
            final(self).block_size() == old(self).block_size(),
            old(self).available(slot as int) ==> (r matches Ok(buffer) && Some(buffer@) == old(
                self,
            )@[slot as int] && final(self).fits(buffer) && final(self)@ == old(self)@.update(
                slot as int,
                None,
            )),
            !old(self).available(slot as int) ==> r == Err::<AlignedBuffer, Error>(
                Error::ExhaustedPool,
            ) && final(self)@ == old(self)@,
    {
        if slot >= self.slots.len() {
            return Err(Error::ExhaustedPool);
        }
        let ghost before = self.slots@;
        let taken = self.slots[slot].take();
        assert(self.slots@ =~= before.update(slot as int, None));
        match taken {
            Some(buffer) => {
                assert(self@ =~= old(self)@.update(slot as int, None));
                Ok(buffer)
            },
            None => {
                assert(self.slots@ =~= before);
                Err(Error::ExhaustedPool)
            },
        }
    }

    /// Puts `buffer` into slot `slot`, which is available again. A slot
    /// that holds a buffer already, or that is not there, and a buffer of
    /// another size or alignment give `ExhaustedPool`, and nothing changes.
    pub fn give_back(&mut self, slot: usize, buffer: AlignedBuffer) -> (r: Result<(), Error>)
        requires
            old(self).wf(),
        ensures
            final(self).wf(),
            final(self).block_size() == old(self).block_size(),
            r is Ok <==> 0 <= slot < old(self)@.len() && old(self)@[slot as int] is None && old(
                self,
            ).fits(buffer),
            r is Ok ==> final(self)@ == old(self)@.update(slot as int, Some(buffer@)),
            r is Err ==> r == Err::<(), Error>(Error::ExhaustedPool) && final(self)@ == old(
                self,
            )@,
    {
        if slot >= self.slots.len() {
            return Err(Error::ExhaustedPool);
        }
        if self.slots[slot].is_some() || buffer.len() != self.block_size || !buffer.is_page_aligned() {
            return Err(Error::ExhaustedPool);
        }
        let ghost view = buffer@;
        self.slots.set(slot, Some(buffer));
        assert(self@ =~= old(self)@.update(slot as int, Some(view)));
        Ok(())
    }
}

} // verus!
