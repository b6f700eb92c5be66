//! A two-level segregated-fit (TLSF) heap allocator over address ranges, with
//! every block header kept in an address-indexed table.
//!
//! - `bits`: lowest set bit, floor of log2, rounding up to a multiple.
//! - `size_class`: the two-level size classes and their ordering lemmas.
//! - `block`: the block header and its bit-packed size word.
//! - `controller`: the bitmaps and the free lists, with the O(1) search.
//! - `heap`: allocation with aligned cuts, freeing with coalescing, byte counts,
//!   and the laws the heap keeps.
//! - `page`: size classes and pages of the segment/page allocator.

pub mod bits;
pub mod size_class;
pub mod block;
pub mod controller;
pub mod set_sum;
pub mod heap;
pub mod page;

pub use crate::heap::AllocError;
pub use crate::heap::Heap;
