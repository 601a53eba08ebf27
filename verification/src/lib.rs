//! Single-threaded allocators over a page-granular, growable linear memory.
//!
//! The crate offers three interchangeable allocation strategies, each a value
//! owning its own bookkeeping and its own slice of linear memory:
//!
//! - [`single_threaded::FreeListAllocator`]: an address-ordered, coalescing
//!   free list with the best fragmentation behaviour;
//! - [`single_threaded::BumpFreeListAllocator`]: a bump pointer plus one
//!   unordered free list, favouring code size over reuse quality;
//! - [`single_threaded::SegregatedBumpAllocator`]: four power-of-two size
//!   bins with a bump fallback for large or highly aligned requests.
//!
//! Addresses handed out by the allocators are byte offsets into the linear
//! memory, which grows in whole pages of [`PAGE_SIZE`] bytes and never
//! shrinks. Releasing a block with a descriptor other than the one it was
//! allocated with, or releasing it twice, is a contract violation; the
//! preconditions of `dealloc` and `realloc` rule such calls out.

use vstd::prelude::*;

pub mod memory;
pub mod single_threaded;

verus! {

/// Size of one page of linear memory, in bytes (64 KiB).
pub const PAGE_SIZE: usize = 65536;

/// Largest number of pages the linear memory may grow to (128 MiB in all).
pub const MAX_PAGES: usize = 2048;

/// Largest extent of the linear memory, in bytes.
pub const MAX_MEMORY_BYTES: usize = MAX_PAGES * PAGE_SIZE;

/// A count of whole pages of linear memory.
#[derive(Eq, PartialEq, Structural, Debug, Clone, Copy)]
pub struct PageCount(pub usize);

impl PageCount {
    /// The number of bytes covered by this many pages.
    pub fn size_in_bytes(self) -> (r: usize)
        requires
            self.0 <= usize::MAX / PAGE_SIZE,
        ensures
            r == self.0 * PAGE_SIZE,
    {
        self.0 * PAGE_SIZE
    }
}

} // verus!
