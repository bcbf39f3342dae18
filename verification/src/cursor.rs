//! The shared offset cursor.
//!
//! One counter, shared by all reader workers, starts at 0 and is advanced
//! by the block size at every claim. A claim is a single atomic
//! fetch-and-add, so every value that the counter passes through is handed
//! to exactly one claimant.

use std::sync::atomic::{AtomicU64, Ordering};
use vstd::prelude::*;

verus! {

/// A cursor that stands at the start of the source.
pub fn new_cursor() -> AtomicU64 {
    AtomicU64::new(0)
}

/// Claims the next block: advances the cursor by `step` and returns the
/// offset at which it stood. What comes back depends on the claims of the
/// other workers, so nothing is promised of it here; `fleet` describes the
/// cursor as a whole.
pub fn claim(cursor: &AtomicU64, step: u64) -> u64 {
    cursor.fetch_add(step, Ordering::Relaxed)
}

} // verus!
