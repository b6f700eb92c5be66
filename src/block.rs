//! The header that starts every block: the physical predecessor, a size word whose
//! two low bits are flags, and the free-list links (meaningful while the block is free).
use vstd::prelude::*;

verus! {

/// Bytes of a block header: the physical-predecessor word and the size word.
pub const HEADER_SIZE: usize = 16;

/// Bytes of the null block that closes every registered range.
pub const NULL_BLOCK_SIZE: usize = 32;

/// Size-word flag: this block is free.
pub const BLOCK_FREE_BIT: usize = 1;

/// Size-word flag: the physically preceding block is free.
pub const PREV_FREE_BIT: usize = 2;

/// Block header as it lies at the block's address.
#[derive(Clone, Copy, Debug, PartialEq, Eq)]
pub struct BlockHeader {
    /// Address of the physically preceding block, if there is one.
    pub prev_phy: Option<usize>,
    /// Payload capacity in bytes (a multiple of four), or-ed with the two flags.
    pub size: usize,
    /// Previous block of the same free list (free blocks only).
    pub prev_free: Option<usize>,
    /// Next block of the same free list (free blocks only).
    pub next_free: Option<usize>,
}

impl BlockHeader {
    /// Payload capacity: the size word without its flag bits.
    pub open spec fn cap(self) -> int {
        self.size as int - self.size as int % 4
    }

    pub open spec fn free(self) -> bool {
        self.size % 2 == 1
    }

    pub open spec fn prev_free_flag(self) -> bool {
        self.size % 4 >= 2
    }

    /// The null block closes a range; its size word has no capacity.
    pub open spec fn null(self) -> bool {
        self.size < 4
    }

    /// The header that `new` makes.
    pub open spec fn new_spec(prev_phy: Option<usize>, size: usize, free: bool, prev_free: bool) -> Self {
        BlockHeader {
            prev_phy,
            size: (size + (if free { 1usize } else { 0usize }) + (if prev_free { 2usize } else { 0usize })) as usize,
            prev_free: None,
            next_free: None,
        }
    }

    /// A header with capacity `size` and the given flags, not linked anywhere.
    pub fn new(prev_phy: Option<usize>, size: usize, free: bool, prev_free: bool) -> (r: Self)
        requires
            size % 4 == 0,
        ensures
            r.cap() == size,
            r.free() == free,
            r.prev_free_flag() == prev_free,
            r.prev_phy == prev_phy,
            r.prev_free is None,
            r.next_free is None,
            r == Self::new_spec(prev_phy, size, free, prev_free),
    {
        let f: usize = if free { BLOCK_FREE_BIT } else { 0 };
        let p: usize = if prev_free { PREV_FREE_BIT } else { 0 };
        BlockHeader { prev_phy, size: size + f + p, prev_free: None, next_free: None }
    }

    pub fn get_size(&self) -> (r: usize)
        ensures
            r == self.cap(),
    {
        let s = self.size as u64;
        let r = s & !3u64;
        assert(r == s - s % 4) by (bit_vector)
            requires
                r == s & !3u64,
        ;
        r as usize
    }

    pub fn is_null(&self) -> (r: bool)
        ensures
            r == self.null(),
    {
        self.size < 4
    }

    pub fn get_now_free(&self) -> (r: bool)
        ensures
            r == self.free(),
    {
        let s = self.size as u64;
        assert((s & 1 == 1) == (s % 2 == 1)) by (bit_vector);
        s & 1 == 1
    }

    pub fn get_prev_free(&self) -> (r: bool)
        ensures
            r == self.prev_free_flag(),
    {
        let s = self.size as u64;
        assert((s & 2 == 2) == (s % 4 >= 2)) by (bit_vector);
        s & 2 == 2
    }

    /// Replaces the capacity, keeping both flags.
    pub fn set_size(&mut self, size: usize)
        requires
            size % 4 == 0,
        ensures
            final(self).cap() == size,
            final(self).free() == old(self).free(),
            final(self).prev_free_flag() == old(self).prev_free_flag(),
            final(self).prev_phy == old(self).prev_phy,
            final(self).prev_free == old(self).prev_free,
            final(self).next_free == old(self).next_free,
    {
        let flags = self.size % 4;
        self.size = size + flags;
    }

    pub fn set_free(&mut self)
        ensures
            final(self).cap() == old(self).cap(),
            final(self).free(),
            final(self).prev_free_flag() == old(self).prev_free_flag(),
            final(self).prev_phy == old(self).prev_phy,
            final(self).prev_free == old(self).prev_free,
            final(self).next_free == old(self).next_free,
    {
        if self.size % 2 == 0 {
            self.size = self.size + BLOCK_FREE_BIT;
        }
    }

    pub fn set_used(&mut self)
        ensures
            final(self).cap() == old(self).cap(),
            !final(self).free(),
            final(self).prev_free_flag() == old(self).prev_free_flag(),
            final(self).prev_phy == old(self).prev_phy,
            final(self).prev_free == old(self).prev_free,
            final(self).next_free == old(self).next_free,
    {
        if self.size % 2 == 1 {
            self.size = self.size - BLOCK_FREE_BIT;
        }
    }

    /// Records whether the physically preceding block is free.
    pub fn set_prev_free_flag(&mut self, prev_free: bool)
        ensures
            final(self).cap() == old(self).cap(),
            final(self).free() == old(self).free(),
            final(self).prev_free_flag() == prev_free,
            final(self).prev_phy == old(self).prev_phy,
            final(self).prev_free == old(self).prev_free,
            final(self).next_free == old(self).next_free,
            final(self).null() == old(self).null(),
    {
        let flag = self.size % 4 >= 2;
        if flag && !prev_free {
            self.size = self.size - PREV_FREE_BIT;
        } else if !flag && prev_free {
            self.size = self.size + PREV_FREE_BIT;
        }
    }
}

} // verus!
