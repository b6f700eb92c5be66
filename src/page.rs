//! Size classes and pages of the segment/page allocator: requests are rounded to a
//! class with three significant bits, and each page serves one class, first from
//! its freed blocks, then from its untouched tail.
use vstd::prelude::*;
use vstd::arithmetic::power2::pow2;
use vstd::bits::lemma_u64_shr_is_div;
use vstd::bits::lemma_u64_shl_is_mul;
use crate::bits::log2;
use crate::bits::lemma_log2_bounds;
use crate::bits::my_log2;

verus! {

/// Queue of the pages whose blocks are 4 MiB or more.
pub const HUGE_QUEUE: usize = 71;

/// Segments are aligned to, and at least, 4 MiB.
pub const MIN_SEGMENT_SIZE: usize = 0x40_0000;

/// The queue of a request of `size` bytes: one per class of three significant bits
/// of the size in words, and one for all sizes of 4 MiB and more.
pub open spec fn queue_id(size: int) -> int {
    let s = (size + 7) / 8;
    if s <= 7 {
        s - 1
    } else if s >= 0x8_0000 {
        HUGE_QUEUE as int
    } else {
        let lg = log2(s as nat) as int;
        lg * 4 - 5 + (s / pow2((lg - 2) as nat) as int) % 4
    }
}

/// `size` rounded up to whole words and then to three significant bits.
pub open spec fn upper_size(size: int) -> int {
    let s = (size + 7) / 8;
    if s <= 7 {
        s * 8
    } else {
        let lg = log2(s as nat);
        let k = pow2((lg - 2) as nat) as int;
        let t = s / k;
        if s == t * k {
            t * pow2(lg + 1) as int
        } else {
            (t + 1) * pow2(lg + 1) as int
        }
    }
}

proof fn lemma_top_bits(s: nat, lg: nat)
    requires
        s >= 8,
        lg == log2(s),
    ensures
        lg >= 3,
        4 <= s / pow2((lg - 2) as nat) < 8,
        pow2((lg - 2) as nat) * 8 == pow2(lg + 1),
{
    lemma_log2_bounds(s);
    vstd::arithmetic::power2::lemma2_to64();
    if lg < 3 {
        if lg + 1 < 3 {
            vstd::arithmetic::power2::lemma_pow2_strictly_increases(lg + 1, 3);
        }
    }
    let k = (lg - 2) as nat;
    vstd::arithmetic::power2::lemma_pow2_adds(k, 2);
    vstd::arithmetic::power2::lemma_pow2_adds(k, 3);
    vstd::arithmetic::power2::lemma_pow2_pos(k);
    let p = pow2(k) as int;
    let q = s as int / p;
    vstd::arithmetic::div_mod::lemma_fundamental_div_mod(s as int, p);
    vstd::arithmetic::div_mod::lemma_mod_pos_bound(s as int, p);
    assert(k + 2 == lg && k + 3 == lg + 1);
    assert(4 * p <= s < 8 * p);
    if q < 4 {
        assert(q * p <= 3 * p) by (nonlinear_arith)
            requires
                q < 4,
                p > 0,
        ;
    }
    if q >= 8 {
        assert(q * p >= 8 * p) by (nonlinear_arith)
            requires
                q >= 8,
                p > 0,
        ;
    }
}

/// The queue of a request of `size` bytes.
pub fn get_queue_id(size: usize) -> (r: usize)
    requires
        size >= 1,
        size + 7 <= usize::MAX,
    ensures
        r == queue_id(size as int),
        r <= HUGE_QUEUE,
{
    let s = ((size as u64 + 7) >> 3u64) as usize;
    proof {
        lemma_u64_shr_is_div((size + 7) as u64, 3);
        vstd::arithmetic::power2::lemma2_to64();
    }
    if s <= 7 {
        return s - 1;
    }
    if s >= 0x8_0000 {
        return HUGE_QUEUE;
    }
    let lg = my_log2(s);
    proof {
        lemma_top_bits(s as nat, lg as nat);
        lemma_log2_bounds(s as nat);
        if lg > 19 {
            vstd::arithmetic::power2::lemma_pow2_strictly_increases(19, lg as nat);
        }
    }
    let sh = (lg - 2) as u64;
    let q = (s as u64) >> sh;
    proof {
        lemma_u64_shr_is_div(s as u64, sh);
    }
    let low = q & 3;
    assert(low == q % 4) by (bit_vector)
        requires
            low == q & 3,
    ;
    lg * 4 - 5 + low as usize
}

/// `size` rounded up to whole words, then to three significant bits.
pub fn get_upper_size(size: usize) -> (r: usize)
    requires
        size <= usize::MAX / 2,
    ensures
        r == upper_size(size as int),
        r >= size,
        r % 8 == 0,
        4 * r < 5 * (size + 8),
{
    let s = ((size as u64 + 7) >> 3u64) as usize;
    proof {
        lemma_u64_shr_is_div((size + 7) as u64, 3);
        vstd::arithmetic::power2::lemma2_to64();
    }
    proof {
        vstd::arithmetic::div_mod::lemma_fundamental_div_mod(size + 7, 8);
    }
    proof {
        vstd::arithmetic::div_mod::lemma_mod_multiples_basic(s as int, 8);
    }
    if s <= 7 {
        return s * 8;
    }
    let lg = my_log2(s);
    proof {
        lemma_top_bits(s as nat, lg as nat);
        lemma_log2_bounds(s as nat);
    }
    let sh = (lg - 2) as u64;
    let sh2 = (lg + 1) as u64;
    let tmp = (s as u64) >> sh;
    proof {
        lemma_u64_shr_is_div(s as u64, sh);
        vstd::arithmetic::power2::lemma_pow2_pos(sh as nat);
        vstd::arithmetic::power2::lemma_pow2_unfold(lg as nat + 1);
        vstd::arithmetic::div_mod::lemma_fundamental_div_mod(s as int, pow2(sh as nat) as int);
        vstd::arithmetic::div_mod::lemma_mod_pos_bound(s as int, pow2(sh as nat) as int);
        vstd::arithmetic::mul::lemma_mul_is_commutative(tmp as int, pow2(sh as nat) as int);
        assert(tmp * pow2(sh as nat) <= s);
        assert((tmp + 1) * pow2(sh as nat) > s) by (nonlinear_arith)
            requires
                tmp * pow2(sh as nat) + (s as int) % (pow2(sh as nat) as int) == s,
                (s as int) % (pow2(sh as nat) as int) < pow2(sh as nat),
        ;
        assert((tmp + 1) * pow2(lg as nat + 1) <= 10 * s) by (nonlinear_arith)
            requires
                tmp * pow2(sh as nat) <= s,
                pow2(sh as nat) * 8 == pow2(lg as nat + 1),
                4 <= tmp < 8,
        ;
        vstd::arithmetic::div_mod::lemma_fundamental_div_mod(size + 7, 8);
        assert(8 * s <= size + 7);
        lemma_u64_shl_is_mul(tmp, sh);
        assert(tmp * pow2(sh2 as nat) <= (tmp + 1) * pow2(sh2 as nat)) by (nonlinear_arith);
        lemma_u64_shl_is_mul(tmp, sh2);
        lemma_u64_shl_is_mul((tmp + 1) as u64, sh2);
    }
    let tmp1 = tmp + 1;
    let down = tmp << sh;
    if s as u64 == down {
        proof {
            assert(tmp * pow2(lg as nat + 1) == 8 * s) by (nonlinear_arith)
                requires
                    tmp * pow2(sh as nat) == s,
                    pow2(sh as nat) * 8 == pow2(lg as nat + 1),
            ;
        }
        (tmp << sh2) as usize
    } else {
        proof {
            assert((tmp + 1) * pow2(lg as nat + 1) >= 8 * s) by (nonlinear_arith)
                requires
                    (tmp + 1) * pow2(sh as nat) > s,
                    pow2(sh as nat) * 8 == pow2(lg as nat + 1),
            ;
            assert((tmp + 1) * pow2(lg as nat + 1) == ((tmp + 1) * pow2(sh as nat)) * 8) by (nonlinear_arith)
                requires
                    pow2(sh as nat) * 8 == pow2(lg as nat + 1),
            ;
            vstd::arithmetic::div_mod::lemma_mod_multiples_basic((tmp + 1) * pow2(sh as nat), 8);
        }
        (tmp1 << sh2) as usize
    }
}

/// Address of a segment.
#[derive(Clone, Copy, Debug, PartialEq, Eq, Structural)]
pub struct SegmentPointer {
    pub addr: usize,
}

/// The segment that holds `addr`: `addr` rounded down to the segment alignment.
pub fn get_segment(addr: usize) -> (r: SegmentPointer)
    ensures
        r.addr == addr as int / MIN_SEGMENT_SIZE as int * MIN_SEGMENT_SIZE as int,
        r.addr <= addr < r.addr + MIN_SEGMENT_SIZE,
        r.addr % MIN_SEGMENT_SIZE == 0,
{
    let q = addr / MIN_SEGMENT_SIZE;
    proof {
        vstd::arithmetic::div_mod::lemma_fundamental_div_mod(addr as int, MIN_SEGMENT_SIZE as int);
        vstd::arithmetic::mul::lemma_mul_is_commutative(q as int, MIN_SEGMENT_SIZE as int);
        vstd::arithmetic::div_mod::lemma_mod_multiples_basic(q as int, MIN_SEGMENT_SIZE as int);
    }
    SegmentPointer { addr: q * MIN_SEGMENT_SIZE }
}

/// A page serves blocks of one size: first those freed (the last freed first), then
/// the part of the page never handed out, from `capacity` up to `end_addr`.
pub struct Page {
    /// Size of every block of the page.
    pub block_size: usize,
    /// The freed blocks; the last one is handed out first.
    pub free_list: Vec<usize>,
    /// End of the page's blocks.
    pub end_addr: usize,
    /// Start of the part of the page never handed out.
    pub capacity: usize,
    /// Previous page of the same queue (zero for none).
    pub prev_page: usize,
    /// Next page of the same queue (zero for none).
    pub next_page: usize,
}

impl Page {
    /// The never-used part still holds a whole block.
    pub open spec fn has_room(&self) -> bool {
        self.capacity + self.block_size <= self.end_addr
    }

    /// Sets the block size and the never-used part `[begin_addr, end_addr)`, and
    /// unlinks the page from any queue. The freed blocks stay as they are.
    pub fn init(&mut self, size: usize, begin_addr: usize, end_addr: usize)
        ensures
            final(self).block_size == size,
            final(self).capacity == begin_addr,
            final(self).end_addr == end_addr,
            final(self).prev_page == 0,
            final(self).next_page == 0,
            final(self).free_list@ == old(self).free_list@,
    {
        self.block_size = size;
        self.capacity = begin_addr;
        self.end_addr = end_addr;
        self.prev_page = 0;
        self.next_page = 0;
    }

    /// No block is left: none freed and no room in the never-used part.
    pub fn is_full(&self) -> (r: bool)
        ensures
            r == (!self.has_room() && self.free_list@.len() == 0),
    {
        let room = self.block_size <= self.end_addr && self.capacity <= self.end_addr - self.block_size;
        !room && self.free_list.len() == 0
    }

    /// Gives the freed block at `block` back to the page.
    pub fn push_front(&mut self, block: usize)
        ensures
            final(self).free_list@ == old(self).free_list@.push(block),
            final(self).block_size == old(self).block_size,
            final(self).capacity == old(self).capacity,
            final(self).end_addr == old(self).end_addr,
            final(self).prev_page == old(self).prev_page,
            final(self).next_page == old(self).next_page,
    {
        self.free_list.push(block);
    }

    /// Drops the freed block that would be handed out next.
    pub fn pop_front(&mut self)
        requires
            old(self).free_list@.len() > 0,
        ensures
            final(self).free_list@ == old(self).free_list@.drop_last(),
            final(self).block_size == old(self).block_size,
            final(self).capacity == old(self).capacity,
            final(self).end_addr == old(self).end_addr,
            final(self).prev_page == old(self).prev_page,
            final(self).next_page == old(self).next_page,
    {
        self.free_list.pop();
    }

    /// Hands out a block: the last freed one, else the next of the never-used part;
    /// zero when the page is full.
    pub fn get_block(&mut self) -> (r: usize)
        ensures
            final(self).block_size == old(self).block_size,
            final(self).end_addr == old(self).end_addr,
            final(self).prev_page == old(self).prev_page,
            final(self).next_page == old(self).next_page,
            old(self).free_list@.len() > 0 ==> {
                &&& r == old(self).free_list@.last()
                &&& final(self).free_list@ == old(self).free_list@.drop_last()
                &&& final(self).capacity == old(self).capacity
            },
            old(self).free_list@.len() == 0 && old(self).has_room() ==> {
                &&& r == old(self).capacity
                &&& final(self).capacity == old(self).capacity + old(self).block_size
                &&& final(self).free_list@ == old(self).free_list@
            },
            old(self).free_list@.len() == 0 && !old(self).has_room() ==> {
                &&& r == 0
                &&& final(self).capacity == old(self).capacity
                &&& final(self).free_list@ == old(self).free_list@
            },
    {
        let n = self.free_list.len();
        if n > 0 {
            let ans = self.free_list[n - 1];
            self.pop_front();
            ans
        } else if self.block_size <= self.end_addr && self.capacity <= self.end_addr - self.block_size {
            let ans = self.capacity;
            self.capacity = self.capacity + self.block_size;
            ans
        } else {
            0
        }
    }
}

} // verus!
