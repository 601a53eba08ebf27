//! The three single-threaded allocation strategies.
//!
//! Each strategy is a value owning its own bookkeeping and its own linear
//! memory; no state is shared between instances, and none of the strategies
//! depends on the others. Callers pick one strategy per use based on
//! size/speed/fragmentation trade-offs.

pub mod blocks;
pub mod bump;
pub mod bump_freelist;
pub mod freelist;
pub mod segregated_bump;
pub mod sizes;

pub use bump_freelist::BumpFreeListAllocator;
pub use freelist::FreeListAllocator;
pub use segregated_bump::SegregatedBumpAllocator;
