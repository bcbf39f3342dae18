//! Block-level imaging of a byte source into an ordered stream of chunks.
//!
//! Reader workers claim fixed-size blocks from a shared cursor and read them
//! in any order; a single sequencer puts the blocks back into source order,
//! feeds them to the rolling digests, encodes each one as a chunk and
//! appends it to the output. This crate holds the decisions and the
//! encodings of that pipeline together with their proofs; the program
//! around it performs the reads and writes.

pub mod aligned_buffer;
pub mod args;
pub mod block;
pub mod buffer;
pub mod chunk;
pub mod cursor;
pub mod digest;
pub mod error;
pub mod fleet;
pub mod hash;
pub mod pipeline;
pub mod reader;
pub mod reassembly;
pub mod writer;
