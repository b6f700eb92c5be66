//! The heap: a segregated-fit allocator over registered address ranges. Every block
//! header lives in an address-indexed table; the controller indexes the free ones.
use vstd::prelude::*;
use std::collections::HashMap;
use crate::bits::align_up;
use crate::bits::alignto;
use crate::bits::is_pow2;
use crate::bits::my_lowbit;
use crate::block::BlockHeader;
use crate::block::HEADER_SIZE;
use crate::block::NULL_BLOCK_SIZE;
use crate::controller::Controller;
use crate::controller::same_phys_fields;
use crate::controller::first_fit;
use crate::set_sum::set_sum;
use crate::set_sum::lemma_set_sum_insert;
use crate::set_sum::lemma_set_sum_remove;
use crate::set_sum::lemma_set_sum_frame;
use crate::set_sum::lemma_set_sum_le;
use crate::set_sum::lemma_set_sum_zero;
use crate::set_sum::lemma_set_sum_add;
use crate::set_sum::lemma_set_sum_replace;
use crate::set_sum::lemma_set_sum_point;
use crate::size_class::class_of;
use crate::size_class::up_size;
use crate::size_class::CLASS_COUNT;
use crate::size_class::MAX_BLOCK_SIZE;

verus! {

broadcast use {
    vstd::std_specs::hash::axiom_usize_obeys_hash_table_key_model,
    vstd::std_specs::hash::axiom_random_state_builds_valid_hashers,
    vstd::std_specs::hash::axiom_hashmap_view_finite_dom,
    vstd::std_specs::hash::axiom_contains_deref_key,
    vstd::std_specs::hash::axiom_maps_deref_key_to_value,
};

/// Bytes of a machine word; also the smallest alignment of a block.
pub const WORD_SIZE: usize = 8;

/// Registered ranges start on, and are multiples of, this size.
pub const PAGE_SIZE: usize = 4096;

/// Bytes that the controller takes at the start of the first range: the
/// first-level bitmap, the second-level bitmaps, the list heads and the null block.
pub const CONTROLLER_SIZE: usize = 7320;

/// Why an allocation failed.
#[derive(Clone, Copy, Debug, PartialEq, Eq, Structural)]
pub enum AllocError {
    /// No free block is large enough.
    NoMemory,
}

/// End of the block at `a`: the null block has a fixed size.
pub open spec fn block_end(m: Map<usize, BlockHeader>, a: usize) -> int {
    if m[a].null() {
        a + NULL_BLOCK_SIZE
    } else {
        a + HEADER_SIZE + m[a].cap()
    }
}

/// Address of the block that physically follows the (non-null) block at `a`.
pub open spec fn phy_next(m: Map<usize, BlockHeader>, a: usize) -> usize {
    (a + HEADER_SIZE + m[a].cap()) as usize
}

/// `a` is a free block, not a null one.
pub open spec fn is_free_block(m: Map<usize, BlockHeader>, a: usize) -> bool {
    m.contains_key(a) && m[a].free() && !m[a].null()
}

/// The block size that a request of `size` bytes aligned to `align` needs.
pub open spec fn min_block_size(size: usize, align: usize) -> int {
    let m = if size >= align && size >= 2 * WORD_SIZE {
        size as int
    } else if align >= 2 * WORD_SIZE {
        align as int
    } else {
        2 * WORD_SIZE as int
    };
    align_up(m, if align > WORD_SIZE { align as int } else { WORD_SIZE as int })
}

/// The size searched for: the block size, with room to cut an aligned start out
/// of a block when the alignment exceeds a word.
pub open spec fn search_size(size: usize, align: usize) -> int {
    let m = min_block_size(size, align);
    if align > WORD_SIZE {
        align_up(m + align + 4 * WORD_SIZE, align as int)
    } else {
        m
    }
}

/// A request that the heap can serve: a free block reaches the rounded search size.
pub open spec fn can_serve(m: Map<usize, BlockHeader>, size: usize, align: usize) -> bool {
    search_size(size, align) < MAX_BLOCK_SIZE && exists|a: usize|
        #[trigger] is_free_block(m, a) && m[a].cap() >= up_size(search_size(size, align))
}

/// Bytes that a block adds to the heap's total: its capacity, and its header
/// unless it is the first block of its range.
pub open spec fn total_weight(m: Map<usize, BlockHeader>) -> spec_fn(usize) -> int {
    |a: usize|
        if m[a].null() {
            0
        } else if m[a].prev_phy is Some {
            m[a].cap() + HEADER_SIZE
        } else {
            m[a].cap()
        }
}

/// Bytes that a block adds to what is available: its capacity, when free.
pub open spec fn free_weight(m: Map<usize, BlockHeader>) -> spec_fn(usize) -> int {
    |a: usize|
        if m[a].free() && !m[a].null() {
            m[a].cap()
        } else {
            0
        }
}

/// Bytes that a block adds to what is in use: the size asked for its allocation.
pub open spec fn used_weight(m: Map<usize, BlockHeader>, live: Map<usize, (usize, usize)>) -> spec_fn(
    usize,
) -> int {
    |a: usize|
        if !m[a].free() && !m[a].null() && live.contains_key((a + HEADER_SIZE) as usize) {
            live[(a + HEADER_SIZE) as usize].0 as int
        } else {
            0
        }
}

/// The physical layout around the block at `a` is consistent.
pub open spec fn block_ok(
    m: Map<usize, BlockHeader>,
    ranges: Seq<(int, int)>,
    range_of: Map<usize, int>,
    a: usize,
) -> bool {
    let i = range_of[a];
    &&& 0 <= i < ranges.len()
    &&& ranges[i].0 <= a
    &&& block_end(m, a) <= ranges[i].1
    &&& a % 8 == 0
    &&& m[a].cap() % 8 == 0
    &&& !m[a].null() ==> {
        let n = phy_next(m, a);
        &&& m.contains_key(n)
        &&& range_of[n] == i
        &&& m[n].prev_free_flag() == m[a].free()
        &&& !m[n].null() ==> m[n].prev_phy == Some(a)
    }
    &&& !m[a].null() && m[a].prev_phy is Some ==> {
        let p = m[a].prev_phy.unwrap();
        &&& m.contains_key(p)
        &&& !m[p].null()
        &&& phy_next(m, p) == a
    }
}

/// A used block carries a live allocation.
pub open spec fn used_has_alloc(m: Map<usize, BlockHeader>, live: Map<usize, (usize, usize)>, a: usize) -> bool {
    !m[a].null() && !m[a].free() ==> live.contains_key((a + HEADER_SIZE) as usize)
}

/// The physical layout of all blocks within the registered ranges.
pub open spec fn phys_ok(m: Map<usize, BlockHeader>, ranges: Seq<(int, int)>, range_of: Map<usize, int>) -> bool {
    &&& m.dom().finite()
    &&& range_of.dom() == m.dom()
    &&& forall|i: int|
        0 <= i < ranges.len() ==> 0 <= #[trigger] ranges[i].0 <= ranges[i].1 <= usize::MAX
            && ranges[i].1 - ranges[i].0 <= MAX_BLOCK_SIZE
    &&& forall|i: int, j: int|
        0 <= i < ranges.len() && 0 <= j < ranges.len() && i != j ==> #[trigger] ranges[i].1
            <= #[trigger] ranges[j].0 || ranges[j].1 <= ranges[i].0
    &&& forall|a: usize| m.contains_key(a) ==> #[trigger] block_ok(m, ranges, range_of, a)
    &&& forall|a: usize, b: usize| #[trigger] blocks_apart(m, a, b)
}

/// Used blocks and live allocations match.
pub open spec fn live_ok(m: Map<usize, BlockHeader>, live: Map<usize, (usize, usize)>) -> bool {
    &&& forall|a: usize| m.contains_key(a) ==> #[trigger] used_has_alloc(m, live, a)
    &&& forall|p: usize| live.contains_key(p) ==> #[trigger] alloc_ok(m, live, p)
}

/// Every block of `m0` but `x` is still in `m1`, with the same capacity and flags.
pub open spec fn same_state_except(m0: Map<usize, BlockHeader>, m1: Map<usize, BlockHeader>, x: usize) -> bool {
    forall|k: usize|
        #[trigger] m0.contains_key(k) && k != x ==> m1.contains_key(k) && m1[k].cap() == m0[k].cap()
            && m1[k].free() == m0[k].free() && m1[k].null() == m0[k].null()
}

/// Every used block of `m0` is still in `m1`, used, with the same capacity.
pub open spec fn used_kept(m0: Map<usize, BlockHeader>, m1: Map<usize, BlockHeader>) -> bool {
    forall|k: usize|
        #[trigger] m0.contains_key(k) && !m0[k].free() && !m0[k].null() ==> m1.contains_key(k)
            && m1[k].cap() == m0[k].cap() && !m1[k].free() && !m1[k].null()
}

proof fn lemma_used_kept_trans(m0: Map<usize, BlockHeader>, m1: Map<usize, BlockHeader>, m2: Map<usize, BlockHeader>)
    requires
        used_kept(m0, m1),
        used_kept(m1, m2),
    ensures
        used_kept(m0, m2),
{
    assert forall|k: usize| #[trigger] m0.contains_key(k) && !m0[k].free() && !m0[k].null() implies m2.contains_key(k)
        && m2[k].cap() == m0[k].cap() && !m2[k].free() && !m2[k].null() by {
        assert(m1.contains_key(k));
    }
}

/// A free block is never followed by another free block: freeing merges them.
pub open spec fn free_apart(m: Map<usize, BlockHeader>, a: usize) -> bool {
    is_free_block(m, a) ==> !is_free_block(m, phy_next(m, a))
}

/// The block physically before `b` is free.
pub open spec fn prev_is_free(m: Map<usize, BlockHeader>, b: usize) -> bool {
    m[b].prev_phy is Some && is_free_block(m, m[b].prev_phy.unwrap())
}

/// The block physically after `b` is free.
pub open spec fn next_is_free(m: Map<usize, BlockHeader>, b: usize) -> bool {
    is_free_block(m, phy_next(m, b))
}

/// If the block before `b` is free, the one before that is not.
pub open spec fn prev_guard(m: Map<usize, BlockHeader>, b: usize) -> bool {
    match m[b].prev_phy {
        Some(p) => is_free_block(m, p) ==> match m[p].prev_phy {
            Some(q) => !is_free_block(m, q),
            None => true,
        },
        None => true,
    }
}

/// Two distinct blocks do not overlap.
pub open spec fn blocks_apart(m: Map<usize, BlockHeader>, a: usize, b: usize) -> bool {
    m.contains_key(a) && m.contains_key(b) && a != b ==> block_end(m, a) <= b || block_end(m, b)
        <= a
}

/// The live allocation at `p` sits in a used block that fits it.
pub open spec fn alloc_ok(m: Map<usize, BlockHeader>, live: Map<usize, (usize, usize)>, p: usize) -> bool {
    let b = (p - HEADER_SIZE) as usize;
    &&& p >= HEADER_SIZE
    &&& m.contains_key(b)
    &&& !m[b].null()
    &&& !m[b].free()
    &&& live[p].0 <= m[b].cap()
    &&& min_block_size(live[p].0, live[p].1) <= m[b].cap()
    &&& is_pow2(live[p].1)
    &&& p as int % live[p].1 as int == 0
}

/// `m1` is `m0` with the block at `x` cut after `c1` bytes of payload into `x` and
/// `y = x + HEADER_SIZE + c1`; the flags of `x` and `y` are as given in `m1`.
pub open spec fn split_rel(m0: Map<usize, BlockHeader>, m1: Map<usize, BlockHeader>, x: usize, c1: int) -> bool {
    let y = (x + HEADER_SIZE + c1) as usize;
    let n = phy_next(m0, x);
    &&& m0.contains_key(x)
    &&& !m0[x].null()
    &&& c1 >= 0
    &&& c1 % 8 == 0
    &&& c1 + HEADER_SIZE + 16 <= m0[x].cap()
    &&& m1.dom() == m0.dom().insert(y)
    &&& m1[x].cap() == c1
    &&& !m1[x].null()
    &&& m1[x].prev_phy == m0[x].prev_phy
    &&& m1[x].prev_free_flag() == m0[x].prev_free_flag()
    &&& m1[y].cap() == m0[x].cap() - c1 - HEADER_SIZE
    &&& !m1[y].null()
    &&& m1[y].prev_phy == Some(x)
    &&& m1[y].prev_free_flag() == m1[x].free()
    &&& m1[n].cap() == m0[n].cap()
    &&& m1[n].null() == m0[n].null()
    &&& m1[n].free() == m0[n].free()
    &&& m1[n].prev_free_flag() == m1[y].free()
    &&& (!m0[n].null() ==> m1[n].prev_phy == Some(y))
    &&& (m0[n].null() ==> m1[n].prev_phy == m0[n].prev_phy)
    &&& forall|k: usize| #[trigger] m0.contains_key(k) && k != x && k != n ==> m1[k] == m0[k]
}

proof fn lemma_split_fresh(m0: Map<usize, BlockHeader>, m1: Map<usize, BlockHeader>, ranges: Seq<(int, int)>, ro: Map<usize, int>, x: usize, c1: int)
    requires
        phys_ok(m0, ranges, ro),
        split_rel(m0, m1, x, c1),
    ensures
        !m0.contains_key((x + HEADER_SIZE + c1) as usize),
        m0.contains_key(phy_next(m0, x)),
        phy_next(m0, x) != x,
{
    let y = (x + HEADER_SIZE + c1) as usize;
    assert(block_ok(m0, ranges, ro, x));
    if m0.contains_key(y) {
        assert(blocks_apart(m0, x, y));
    }
}

proof fn lemma_split_block_ok(
    m0: Map<usize, BlockHeader>,
    m1: Map<usize, BlockHeader>,
    ranges: Seq<(int, int)>,
    ro: Map<usize, int>,
    x: usize,
    c1: int,
    a: usize,
)
    requires
        phys_ok(m0, ranges, ro),
        split_rel(m0, m1, x, c1),
        m1.contains_key(a),
    ensures
        block_ok(m1, ranges, ro.insert((x + HEADER_SIZE + c1) as usize, ro[x]), a),
{
    let y = (x + HEADER_SIZE + c1) as usize;
    let n = phy_next(m0, x);
    let ro1 = ro.insert(y, ro[x]);
    lemma_split_fresh(m0, m1, ranges, ro, x, c1);
    assert(block_ok(m0, ranges, ro, x));
    assert(block_ok(m0, ranges, ro, n));
    if a == x {
        if m1[x].prev_phy is Some {
            let p = m1[x].prev_phy.unwrap();
            assert(block_ok(m0, ranges, ro, p));
            assert(p != n);
        }
    } else if a == y {
    } else if a == n {
        if !m0[n].null() {
            let s = phy_next(m0, n);
            assert(block_ok(m0, ranges, ro, s));
            assert(s != x && s != n && s != y);
        }
    } else {
        assert(block_ok(m0, ranges, ro, a));
        if !m0[a].null() {
            let s = phy_next(m0, a);
            if s == n {
                assert(blocks_apart(m0, a, x));
            }
        }
        if !m0[a].null() && m0[a].prev_phy is Some {
            let p = m0[a].prev_phy.unwrap();
            assert(block_ok(m0, ranges, ro, p));
        }
    }
}

/// Cutting a block in two keeps the physical layout consistent.
proof fn lemma_split(m0: Map<usize, BlockHeader>, m1: Map<usize, BlockHeader>, ranges: Seq<(int, int)>, ro: Map<usize, int>, x: usize, c1: int)
    requires
        phys_ok(m0, ranges, ro),
        split_rel(m0, m1, x, c1),
    ensures
        phys_ok(m1, ranges, ro.insert((x + HEADER_SIZE + c1) as usize, ro[x])),
        !m0.contains_key((x + HEADER_SIZE + c1) as usize),
{
    let y = (x + HEADER_SIZE + c1) as usize;
    let n = phy_next(m0, x);
    let ro1 = ro.insert(y, ro[x]);
    lemma_split_fresh(m0, m1, ranges, ro, x, c1);
    assert(block_ok(m0, ranges, ro, x));
    assert(0 <= ranges[ro[x]].0 <= ranges[ro[x]].1 <= usize::MAX);
    assert(ro1.dom() =~= m1.dom());
    assert forall|a: usize| m1.contains_key(a) implies #[trigger] block_ok(m1, ranges, ro1, a) by {
        lemma_split_block_ok(m0, m1, ranges, ro, x, c1, a);
    }
    assert forall|a: usize, b: usize| #[trigger] blocks_apart(m1, a, b) by {
        if m1.contains_key(a) && m1.contains_key(b) && a != b {
            assert(a != x && a != y ==> block_end(m1, a) == block_end(m0, a));
            assert(b != x && b != y ==> block_end(m1, b) == block_end(m0, b));
            assert(block_end(m1, x) == y);
            assert(block_end(m1, y) == block_end(m0, x));
            if a != y && b != y {
                assert(blocks_apart(m0, a, b));
            } else if a == y && b != x {
                assert(blocks_apart(m0, x, b));
            } else if b == y && a != x {
                assert(blocks_apart(m0, x, a));
            }
        }
    }
}

/// `m1` is `m0` with the free flag of the block at `x` set to `f`, and the matching
/// flag of its physical successor.
pub open spec fn flag_rel(m0: Map<usize, BlockHeader>, m1: Map<usize, BlockHeader>, x: usize, f: bool) -> bool {
    let n = phy_next(m0, x);
    &&& m0.contains_key(x)
    &&& !m0[x].null()
    &&& m1.dom() == m0.dom()
    &&& m1[x] == (BlockHeader { size: m1[x].size, ..m0[x] })
    &&& m1[x].cap() == m0[x].cap()
    &&& m1[x].free() == f
    &&& m1[x].prev_free_flag() == m0[x].prev_free_flag()
    &&& m1[n] == (BlockHeader { size: m1[n].size, ..m0[n] })
    &&& m1[n].cap() == m0[n].cap()
    &&& m1[n].null() == m0[n].null()
    &&& m1[n].free() == m0[n].free()
    &&& m1[n].prev_free_flag() == f
    &&& forall|k: usize| #[trigger] m0.contains_key(k) && k != x && k != n ==> m1[k] == m0[k]
}

/// Changing a block's free flag, and its successor's matching flag, keeps the layout.
proof fn lemma_flag(m0: Map<usize, BlockHeader>, m1: Map<usize, BlockHeader>, ranges: Seq<(int, int)>, ro: Map<usize, int>, x: usize, f: bool)
    requires
        phys_ok(m0, ranges, ro),
        flag_rel(m0, m1, x, f),
    ensures
        phys_ok(m1, ranges, ro),
{
    let n = phy_next(m0, x);
    assert(block_ok(m0, ranges, ro, x));
    assert(m1.dom() =~= m0.dom());
    assert forall|a: usize| m1.contains_key(a) implies #[trigger] block_ok(m1, ranges, ro, a) by {
        assert(block_ok(m0, ranges, ro, a));
        if !m0[a].null() && a != x {
            let s = phy_next(m0, a);
            if s == n {
                assert(blocks_apart(m0, a, x));
            }
        }
        if !m0[a].null() && m0[a].prev_phy is Some {
            let p = m0[a].prev_phy.unwrap();
            assert(block_ok(m0, ranges, ro, p));
        }
    }
    assert forall|a: usize, b: usize| #[trigger] blocks_apart(m1, a, b) by {
        assert(blocks_apart(m0, a, b));
    }
}

/// Header changes that keep every size word and physical-predecessor link keep the layout.
proof fn lemma_phys_frame(m0: Map<usize, BlockHeader>, m1: Map<usize, BlockHeader>, ranges: Seq<(int, int)>, ro: Map<usize, int>)
    requires
        phys_ok(m0, ranges, ro),
        m1.dom() == m0.dom(),
        forall|k: usize| #[trigger] m1.contains_key(k) ==> same_phys_fields(m1[k], m0[k]),
    ensures
        phys_ok(m1, ranges, ro),
{
    assert forall|a: usize| m1.contains_key(a) implies #[trigger] block_ok(m1, ranges, ro, a) by {
        assert(block_ok(m0, ranges, ro, a));
        if !m0[a].null() {
            assert(m1.contains_key(phy_next(m0, a)));
        }
        if !m0[a].null() && m0[a].prev_phy is Some {
            assert(m1.contains_key(m0[a].prev_phy.unwrap()));
        }
    }
    assert forall|a: usize, b: usize| #[trigger] blocks_apart(m1, a, b) by {
        assert(blocks_apart(m0, a, b));
        if m1.contains_key(a) && m1.contains_key(b) {
            assert(same_phys_fields(m1[a], m0[a]) && same_phys_fields(m1[b], m0[b]));
        }
    }
}

/// Header changes that keep every size word and physical-predecessor link keep the sums.
proof fn lemma_sums_frame(m0: Map<usize, BlockHeader>, m1: Map<usize, BlockHeader>, live: Map<usize, (usize, usize)>)
    requires
        m0.dom().finite(),
        m1.dom() == m0.dom(),
        forall|k: usize| #[trigger] m1.contains_key(k) ==> same_phys_fields(m1[k], m0[k]),
    ensures
        set_sum(m1.dom(), total_weight(m1)) == set_sum(m0.dom(), total_weight(m0)),
        set_sum(m1.dom(), free_weight(m1)) == set_sum(m0.dom(), free_weight(m0)),
        set_sum(m1.dom(), used_weight(m1, live)) == set_sum(m0.dom(), used_weight(m0, live)),
{
    assert forall|k: usize| m0.dom().contains(k) implies total_weight(m0)(k) == total_weight(m1)(k) && free_weight(m0)(k) == free_weight(m1)(k) && used_weight(m0, live)(k) == used_weight(m1, live)(k) by {
        assert(m1.contains_key(k));
    }
    lemma_set_sum_frame(m0.dom(), total_weight(m0), total_weight(m1));
    lemma_set_sum_frame(m0.dom(), free_weight(m0), free_weight(m1));
    lemma_set_sum_frame(m0.dom(), used_weight(m0, live), used_weight(m1, live));
}

/// How a split changes the sums.
proof fn lemma_sums_split(m0: Map<usize, BlockHeader>, m1: Map<usize, BlockHeader>, ranges: Seq<(int, int)>, ro: Map<usize, int>, live: Map<usize, (usize, usize)>, x: usize, c1: int)
    requires
        phys_ok(m0, ranges, ro),
        split_rel(m0, m1, x, c1),
        !live.contains_key((x + HEADER_SIZE) as usize),
        !live.contains_key((x + HEADER_SIZE + c1 + HEADER_SIZE) as usize),
    ensures
        set_sum(m1.dom(), total_weight(m1)) == set_sum(m0.dom(), total_weight(m0)),
        set_sum(m1.dom(), free_weight(m1)) == set_sum(m0.dom(), free_weight(m0)) - free_weight(m0)(x)
            + free_weight(m1)(x) + free_weight(m1)((x + HEADER_SIZE + c1) as usize),
        set_sum(m1.dom(), used_weight(m1, live)) == set_sum(m0.dom(), used_weight(m0, live)),
{
    let y = (x + HEADER_SIZE + c1) as usize;
    let n = phy_next(m0, x);
    lemma_split_fresh(m0, m1, ranges, ro, x, c1);
    assert(block_ok(m0, ranges, ro, x));
    assert(0 <= ranges[ro[x]].0 <= ranges[ro[x]].1 <= usize::MAX);
    assert forall|k: usize| m0.dom().contains(k) && k != x implies total_weight(m0)(k) == total_weight(m1)(k) && free_weight(m0)(k) == free_weight(m1)(k) && used_weight(m0, live)(k) == used_weight(m1, live)(k) by {
    }
    lemma_set_sum_replace(m0.dom(), total_weight(m0), total_weight(m1), x, y);
    lemma_set_sum_replace(m0.dom(), free_weight(m0), free_weight(m1), x, y);
    lemma_set_sum_replace(m0.dom(), used_weight(m0, live), used_weight(m1, live), x, y);
}

/// How a flag change moves the sums.
proof fn lemma_sums_flag(m0: Map<usize, BlockHeader>, m1: Map<usize, BlockHeader>, ranges: Seq<(int, int)>, ro: Map<usize, int>, live: Map<usize, (usize, usize)>, x: usize, f: bool)
    requires
        phys_ok(m0, ranges, ro),
        flag_rel(m0, m1, x, f),
        !live.contains_key((x + HEADER_SIZE) as usize),
    ensures
        set_sum(m1.dom(), total_weight(m1)) == set_sum(m0.dom(), total_weight(m0)),
        set_sum(m1.dom(), free_weight(m1)) == set_sum(m0.dom(), free_weight(m0)) - free_weight(m0)(x)
            + free_weight(m1)(x),
        set_sum(m1.dom(), used_weight(m1, live)) == set_sum(m0.dom(), used_weight(m0, live)),
{
    let n = phy_next(m0, x);
    assert(block_ok(m0, ranges, ro, x));
    assert forall|k: usize| m0.dom().contains(k) && k != x implies total_weight(m0)(k) == total_weight(m1)(k) && free_weight(m0)(k) == free_weight(m1)(k) && used_weight(m0, live)(k) == used_weight(m1, live)(k) by {
    }
    assert(m1.dom() =~= m0.dom());
    lemma_set_sum_point(m0.dom(), total_weight(m0), total_weight(m1), x);
    lemma_set_sum_point(m0.dom(), free_weight(m0), free_weight(m1), x);
    lemma_set_sum_point(m0.dom(), used_weight(m0, live), used_weight(m1, live), x);
}

/// What the layout says about the neighbourhood of the non-null block at `x`.
proof fn lemma_next_facts(m: Map<usize, BlockHeader>, ranges: Seq<(int, int)>, ro: Map<usize, int>, x: usize)
    requires
        phys_ok(m, ranges, ro),
        m.contains_key(x),
        !m[x].null(),
    ensures
        x + HEADER_SIZE + m[x].cap() <= usize::MAX,
        m.contains_key(phy_next(m, x)),
        phy_next(m, x) != x,
        forall|c1: int|
            0 <= c1 < m[x].cap() ==> !#[trigger] m.contains_key((x + HEADER_SIZE + c1) as usize),
{
    assert(block_ok(m, ranges, ro, x));
    assert(0 <= ranges[ro[x]].0 <= ranges[ro[x]].1 <= usize::MAX);
    assert forall|c1: int| 0 <= c1 < m[x].cap() implies !#[trigger] m.contains_key((x + HEADER_SIZE + c1) as usize) by {
        let y = (x + HEADER_SIZE + c1) as usize;
        if m.contains_key(y) {
            assert(blocks_apart(m, x, y));
        }
    }
}

proof fn lemma_small_align(a: usize)
    requires
        is_pow2(a),
        a <= WORD_SIZE,
    ensures
        a == 1 || a == 2 || a == 4 || a == 8,
{
    let a64 = a as u64;
    assert(a64 != 0 && a64 & ((a64 - 1) as u64) == 0 && a64 <= 8 ==> (a64 == 1 || a64 == 2 || a64
        == 4 || a64 == 8)) by (bit_vector);
}

proof fn lemma_big_align(a: usize)
    requires
        is_pow2(a),
        a > WORD_SIZE,
    ensures
        a % 16 == 0,
{
    let a64 = a as u64;
    assert(a64 != 0 && a64 & ((a64 - 1) as u64) == 0 && a64 > 8 ==> a64 % 16 == 0) by (bit_vector);
}

/// A multiple of `a`, where `a` is a multiple of `d`, is a multiple of `d`.
proof fn lemma_mod_chain(x: int, a: int, d: int)
    requires
        x >= 0,
        a > 0,
        d > 0,
        x % a == 0,
        a % d == 0,
    ensures
        x % d == 0,
{
    vstd::arithmetic::div_mod::lemma_fundamental_div_mod(x, a);
    vstd::arithmetic::div_mod::lemma_fundamental_div_mod(a, d);
    let q = x / a;
    let r = a / d;
    assert(x == d * (r * q)) by (nonlinear_arith)
        requires
            x == a * q,
            a == d * r,
    ;
    vstd::arithmetic::div_mod::lemma_mod_multiples_basic(r * q, d);
    vstd::arithmetic::mul::lemma_mul_is_commutative(d, r * q);
}

/// `x` rounded up to a multiple of `a`, over 64 bits.
fn align_up64(x: u64, a: u64) -> (r: u64)
    requires
        a > 0,
        x + a <= u64::MAX,
    ensures
        r == align_up(x as int, a as int),
        r % a == 0,
        x <= r < x + a,
{
    let t = x + (a - 1);
    let q = t / a;
    proof {
        vstd::arithmetic::div_mod::lemma_fundamental_div_mod(t as int, a as int);
        vstd::arithmetic::mul::lemma_mul_is_commutative(q as int, a as int);
        vstd::arithmetic::div_mod::lemma_mod_multiples_basic(q as int, a as int);
    }
    q * a
}

/// The block size of a request, or `None` when the size or the alignment reaches
/// the size bound.
fn min_size(size: usize, align: usize) -> (r: Option<usize>)
    requires
        is_pow2(align),
    ensures
        r matches Some(b) ==> b == min_block_size(size, align),
        r is None ==> min_block_size(size, align) >= MAX_BLOCK_SIZE || min_block_size(size, align)
            > usize::MAX,
{
    let s64 = size as u64;
    let a64 = align as u64;
    let m: u64 = if size >= align && size >= 16 {
        s64
    } else if align >= 16 {
        a64
    } else {
        16
    };
    let g: u64 = if align > WORD_SIZE {
        a64
    } else {
        8
    };
    proof {
        let gi = g as int;
        let mi = m as int;
        vstd::arithmetic::div_mod::lemma_fundamental_div_mod(mi + gi - 1, gi);
        vstd::arithmetic::div_mod::lemma_mod_pos_bound(mi + gi - 1, gi);
        vstd::arithmetic::mul::lemma_mul_is_commutative((mi + gi - 1) / gi, gi);
        assert(align_up(mi, gi) >= mi);
        assert(min_block_size(size, align) == align_up(mi, gi));
    }
    if s64 >= MAX_BLOCK_SIZE || a64 >= MAX_BLOCK_SIZE {
        return None;
    }
    let b = align_up64(m, g);
    if b > usize::MAX as u64 {
        return None;
    }
    Some(b as usize)
}

/// The block size and the search size of a request, or `None` when the search size
/// reaches the size bound or does not fit a word.
fn request_sizes(size: usize, align: usize) -> (r: Option<(usize, usize)>)
    requires
        is_pow2(align),
    ensures
        r matches Some(p) ==> p.0 == min_block_size(size, align) && p.1 == search_size(size, align)
            && p.1 < MAX_BLOCK_SIZE && 16 <= p.0 <= p.1 && p.0 % 8 == 0 && p.0 >= size && (align
            > WORD_SIZE ==> p.0 % align == 0),
        r is None ==> search_size(size, align) >= MAX_BLOCK_SIZE || search_size(size, align)
            > usize::MAX,
        align > WORD_SIZE ==> search_size(size, align) >= min_block_size(size, align) + align + 4
            * WORD_SIZE,
        min_block_size(size, align) >= size,
        min_block_size(size, align) >= align,
{
    let s64 = size as u64;
    let a64 = align as u64;
    let m: u64 = if size >= align && size >= 16 {
        s64
    } else if align >= 16 {
        a64
    } else {
        16
    };
    let g: u64 = if align > WORD_SIZE {
        a64
    } else {
        8
    };
    proof {
        if align > WORD_SIZE {
            lemma_big_align(align);
        }
        assert(g % 8 == 0);
        let gi = g as int;
        let mi = m as int;
        let b = align_up(mi, gi);
        vstd::arithmetic::div_mod::lemma_fundamental_div_mod(mi + gi - 1, gi);
        vstd::arithmetic::div_mod::lemma_mod_pos_bound(mi + gi - 1, gi);
        vstd::arithmetic::mul::lemma_mul_is_commutative((mi + gi - 1) / gi, gi);
        vstd::arithmetic::div_mod::lemma_mod_multiples_basic((mi + gi - 1) / gi, gi);
        assert(mi <= b < mi + gi);
        if align > WORD_SIZE {
            let ai = align as int;
            let v = b + ai + 32;
            vstd::arithmetic::div_mod::lemma_fundamental_div_mod(v + ai - 1, ai);
            vstd::arithmetic::div_mod::lemma_mod_pos_bound(v + ai - 1, ai);
            vstd::arithmetic::mul::lemma_mul_is_commutative((v + ai - 1) / ai, ai);
            assert(align_up(v, ai) >= v);
        }
    }
    if s64 >= MAX_BLOCK_SIZE || a64 >= MAX_BLOCK_SIZE {
        return None;
    }
    let b = align_up64(m, g);
    proof {
        lemma_mod_chain(b as int, g as int, 8);
    }
    let sr = if align > WORD_SIZE {
        align_up64(b + a64 + 32, a64)
    } else {
        b
    };
    if sr >= MAX_BLOCK_SIZE || sr > usize::MAX as u64 {
        return None;
    }
    Some((b as usize, sr as usize))
}

/// A range holding one block followed by its null block has a consistent layout.
proof fn lemma_fresh_range(m: Map<usize, BlockHeader>, ranges: Seq<(int, int)>, ro: Map<usize, int>, first: usize, last: usize)
    requires
        m.dom() == set![first, last],
        ro == map![first => 0int, last => 0int],
        ranges.len() == 1,
        0 <= ranges[0].0 <= first,
        last + NULL_BLOCK_SIZE == ranges[0].1 <= usize::MAX,
        ranges[0].1 - ranges[0].0 <= MAX_BLOCK_SIZE,
        first % 8 == 0,
        last % 8 == 0,
        !m[first].null(),
        m[first].cap() % 8 == 0,
        first + HEADER_SIZE + m[first].cap() == last,
        m[first].prev_phy is None,
        m[last].null(),
        m[last].prev_free_flag() == m[first].free(),
    ensures
        phys_ok(m, ranges, ro),
{
    assert(ro.dom() =~= m.dom());
    assert(m.dom().finite());
    assert(phy_next(m, first) == last);
    assert forall|a: usize| m.contains_key(a) implies #[trigger] block_ok(m, ranges, ro, a) by {}
    assert forall|a: usize, b: usize| #[trigger] blocks_apart(m, a, b) by {}
}

/// When no allocation is larger than its block, what is used and what is free
/// together stay within the total.
proof fn lemma_weights_bound(m: Map<usize, BlockHeader>, live: Map<usize, (usize, usize)>)
    requires
        m.dom().finite(),
        forall|k: usize|
            #[trigger] m.contains_key(k) && !m[k].free() && !m[k].null() && live.contains_key(
                (k + HEADER_SIZE) as usize,
            ) ==> live[(k + HEADER_SIZE) as usize].0 <= m[k].cap(),
    ensures
        set_sum(m.dom(), used_weight(m, live)) + set_sum(m.dom(), free_weight(m)) <= set_sum(
            m.dom(),
            total_weight(m),
        ),
{
    let h = |k: usize| used_weight(m, live)(k) + free_weight(m)(k);
    lemma_set_sum_add(m.dom(), used_weight(m, live), free_weight(m), h);
    assert forall|k: usize| m.dom().contains(k) implies h(k) <= total_weight(m)(k) by {
        assert(m.contains_key(k));
    }
    lemma_set_sum_le(m.dom(), h, total_weight(m));
}

/// `m1` is `m0` with the block at `a` grown over its physical successor, whose
/// header is gone.
pub open spec fn merge_rel(m0: Map<usize, BlockHeader>, m1: Map<usize, BlockHeader>, a: usize) -> bool {
    let n = phy_next(m0, a);
    let nn = phy_next(m0, n);
    &&& m0.contains_key(a)
    &&& !m0[a].null()
    &&& m0.contains_key(n)
    &&& !m0[n].null()
    &&& m1.dom() == m0.dom().remove(n)
    &&& m1[a] == (BlockHeader { size: m1[a].size, ..m0[a] })
    &&& m1[a].cap() == m0[a].cap() + HEADER_SIZE + m0[n].cap()
    &&& m1[a].free() == m0[a].free()
    &&& m1[a].prev_free_flag() == m0[a].prev_free_flag()
    &&& !m0[nn].null() ==> m1[nn] == (BlockHeader { prev_phy: Some(a), ..m0[nn] })
    &&& m0[nn].null() ==> m1[nn] == m0[nn]
    &&& forall|k: usize| #[trigger] m0.contains_key(k) && k != a && k != n && k != nn ==> m1[k] == m0[k]
}

proof fn lemma_merge(m0: Map<usize, BlockHeader>, m1: Map<usize, BlockHeader>, ranges: Seq<(int, int)>, ro: Map<usize, int>, a: usize)
    requires
        phys_ok(m0, ranges, ro),
        merge_rel(m0, m1, a),
        m0[phy_next(m0, a)].free() == m0[a].free(),
    ensures
        phys_ok(m1, ranges, ro.remove(phy_next(m0, a))),
{
    let n = phy_next(m0, a);
    let nn = phy_next(m0, n);
    let ro1 = ro.remove(n);
    assert(block_ok(m0, ranges, ro, a));
    assert(block_ok(m0, ranges, ro, n));
    assert(block_ok(m0, ranges, ro, nn));
    assert(ro1.dom() =~= m1.dom());
    assert(nn != a && nn != n) by {
        assert(0 <= ranges[ro[n]].0 <= ranges[ro[n]].1 <= usize::MAX);
    }
    assert(0 <= ranges[ro[n]].0 <= ranges[ro[n]].1 <= usize::MAX);
    assert(phy_next(m1, a) == nn);
    assert forall|k: usize| m1.contains_key(k) implies #[trigger] block_ok(m1, ranges, ro1, k) by {
        assert(block_ok(m0, ranges, ro, k));
        if k == a {
            if m0[a].prev_phy is Some {
                let p = m0[a].prev_phy.unwrap();
                assert(block_ok(m0, ranges, ro, p));
                assert(p != nn);
            }
        } else if k == nn {
            if !m0[nn].null() {
                let s = phy_next(m0, nn);
                assert(block_ok(m0, ranges, ro, s));
                if s == a || s == n {
                    assert(blocks_apart(m0, a, nn));
                }
            }
        } else {
            if !m0[k].null() {
                let s = phy_next(m0, k);
                if s == n {
                    assert(blocks_apart(m0, k, a));
                }
                if s == nn {
                    assert(blocks_apart(m0, k, n));
                }
            }
            if !m0[k].null() && m0[k].prev_phy is Some {
                let p = m0[k].prev_phy.unwrap();
                assert(block_ok(m0, ranges, ro, p));
                if p == n {
                    assert(phy_next(m0, n) == k);
                }
            }
        }
    }
    assert forall|x: usize, y: usize| #[trigger] blocks_apart(m1, x, y) by {
        if m1.contains_key(x) && m1.contains_key(y) && x != y {
            assert(x != a && x != nn ==> block_end(m1, x) == block_end(m0, x));
            assert(y != a && y != nn ==> block_end(m1, y) == block_end(m0, y));
            assert(block_end(m1, nn) == block_end(m0, nn));
            assert(block_end(m1, a) == block_end(m0, n));
            if x != a && y != a {
                assert(blocks_apart(m0, x, y));
            } else if x == a {
                assert(blocks_apart(m0, a, y));
                assert(blocks_apart(m0, n, y));
            } else {
                assert(blocks_apart(m0, a, x));
                assert(blocks_apart(m0, n, x));
            }
        }
    }
}

/// How merging two free blocks changes the sums.
proof fn lemma_sums_merge(m0: Map<usize, BlockHeader>, m1: Map<usize, BlockHeader>, ranges: Seq<(int, int)>, ro: Map<usize, int>, live: Map<usize, (usize, usize)>, a: usize)
    requires
        phys_ok(m0, ranges, ro),
        merge_rel(m0, m1, a),
        m0[a].free(),
        m0[phy_next(m0, a)].free(),
    ensures
        set_sum(m1.dom(), total_weight(m1)) == set_sum(m0.dom(), total_weight(m0)),
        set_sum(m1.dom(), free_weight(m1)) == set_sum(m0.dom(), free_weight(m0)) + HEADER_SIZE,
        set_sum(m1.dom(), used_weight(m1, live)) == set_sum(m0.dom(), used_weight(m0, live)),
{
    let n = phy_next(m0, a);
    assert(block_ok(m0, ranges, ro, n));
    assert(block_ok(m0, ranges, ro, a));
    assert(m0[n].prev_phy == Some(a));
    let s1 = m0.dom().remove(n);
    assert(m1.dom() =~= s1);
    assert forall|k: usize| s1.contains(k) && k != a implies total_weight(m0)(k) == total_weight(m1)(k) && free_weight(m0)(k) == free_weight(m1)(k) && used_weight(m0, live)(k) == used_weight(m1, live)(k) by {
    }
    lemma_set_sum_remove(m0.dom(), total_weight(m0), n);
    lemma_set_sum_remove(m0.dom(), free_weight(m0), n);
    lemma_set_sum_remove(m0.dom(), used_weight(m0, live), n);
    lemma_set_sum_point(s1, total_weight(m0), total_weight(m1), a);
    lemma_set_sum_point(s1, free_weight(m0), free_weight(m1), a);
    lemma_set_sum_point(s1, used_weight(m0, live), used_weight(m1, live), a);
}

/// With every live allocation fitting its block, what is used and what is free
/// together stay within the total, and each part is non-negative.
proof fn lemma_accounting(m: Map<usize, BlockHeader>, ranges: Seq<(int, int)>, ro: Map<usize, int>, live: Map<usize, (usize, usize)>)
    requires
        phys_ok(m, ranges, ro),
        forall|p: usize| live.contains_key(p) ==> #[trigger] alloc_ok(m, live, p),
    ensures
        set_sum(m.dom(), used_weight(m, live)) + set_sum(m.dom(), free_weight(m)) <= set_sum(
            m.dom(),
            total_weight(m),
        ),
        set_sum(m.dom(), used_weight(m, live)) >= 0,
        set_sum(m.dom(), free_weight(m)) >= 0,
{
    assert forall|k: usize|
        #[trigger] m.contains_key(k) && !m[k].free() && !m[k].null() && live.contains_key(
            (k + HEADER_SIZE) as usize,
        ) implies live[(k + HEADER_SIZE) as usize].0 <= m[k].cap() by {
        lemma_next_facts(m, ranges, ro, k);
        assert(alloc_ok(m, live, (k + HEADER_SIZE) as usize));
    }
    lemma_weights_bound(m, live);
    let z = |k: usize| 0int;
    crate::set_sum::lemma_set_sum_zero(m.dom(), z);
    lemma_set_sum_le(m.dom(), z, used_weight(m, live));
    lemma_set_sum_le(m.dom(), z, free_weight(m));
}

/// Addresses inside a range disjoint from all registered ones hold no header.
proof fn lemma_outside_ranges(m0: Map<usize, BlockHeader>, ranges: Seq<(int, int)>, ro: Map<usize, int>, lo: int, hi: int, a: usize)
    requires
        phys_ok(m0, ranges, ro),
        forall|i: int| 0 <= i < ranges.len() ==> hi <= #[trigger] ranges[i].0 || ranges[i].1 <= lo,
        lo <= a < hi,
    ensures
        !m0.contains_key(a),
{
    if m0.contains_key(a) {
        assert(block_ok(m0, ranges, ro, a));
    }
}

/// A range disjoint from all registered ones, holding one block and its null block,
/// joins the layout.
proof fn lemma_add_range(
    m0: Map<usize, BlockHeader>,
    m1: Map<usize, BlockHeader>,
    ranges: Seq<(int, int)>,
    ro: Map<usize, int>,
    first: usize,
    last: usize,
)
    requires
        phys_ok(m0, ranges, ro),
        0 <= first,
        last + NULL_BLOCK_SIZE <= usize::MAX,
        last + NULL_BLOCK_SIZE - first <= MAX_BLOCK_SIZE,
        forall|i: int| 0 <= i < ranges.len() ==> last + NULL_BLOCK_SIZE <= #[trigger] ranges[i].0 || ranges[i].1 <= first,
        first % 8 == 0,
        last % 8 == 0,
        m1.dom() == m0.dom().insert(first).insert(last),
        forall|k: usize| #[trigger] m0.contains_key(k) ==> m1[k] == m0[k],
        !m1[first].null(),
        m1[first].cap() % 8 == 0,
        first + HEADER_SIZE + m1[first].cap() == last,
        m1[first].prev_phy is None,
        m1[last].null(),
        m1[last].prev_free_flag() == m1[first].free(),
    ensures
        !m0.contains_key(first),
        !m0.contains_key(last),
        phys_ok(
            m1,
            ranges.push((first as int, last + NULL_BLOCK_SIZE)),
            ro.insert(first, ranges.len() as int).insert(last, ranges.len() as int),
        ),
{
    let r1 = ranges.push((first as int, last + NULL_BLOCK_SIZE));
    let ro1 = ro.insert(first, ranges.len() as int).insert(last, ranges.len() as int);
    assert(!m0.contains_key(first)) by {
        if m0.contains_key(first) {
            assert(block_ok(m0, ranges, ro, first));
        }
    }
    assert(!m0.contains_key(last)) by {
        if m0.contains_key(last) {
            assert(block_ok(m0, ranges, ro, last));
        }
    }
    assert(ro1.dom() =~= m1.dom());
    assert(phy_next(m1, first) == last);
    assert forall|i: int| 0 <= i < r1.len() implies 0 <= #[trigger] r1[i].0 <= r1[i].1 <= usize::MAX
        && r1[i].1 - r1[i].0 <= MAX_BLOCK_SIZE by {
        if i < ranges.len() {
            assert(r1[i] == ranges[i]);
        }
    }
    assert forall|i: int, j: int|
        0 <= i < r1.len() && 0 <= j < r1.len() && i != j implies #[trigger] r1[i].1
        <= #[trigger] r1[j].0 || r1[j].1 <= r1[i].0 by {
        if i < ranges.len() && j < ranges.len() {
            assert(r1[i] == ranges[i] && r1[j] == ranges[j]);
            assert(ranges[i].1 <= ranges[j].0 || ranges[j].1 <= ranges[i].0);
        } else if i < ranges.len() {
            assert(r1[i] == ranges[i]);
            assert(last + NULL_BLOCK_SIZE <= ranges[i].0 || ranges[i].1 <= first);
        } else if j < ranges.len() {
            assert(r1[j] == ranges[j]);
            assert(last + NULL_BLOCK_SIZE <= ranges[j].0 || ranges[j].1 <= first);
        }
    }
    assert forall|a: usize| m1.contains_key(a) implies #[trigger] block_ok(m1, r1, ro1, a) by {
        if a != first && a != last {
            assert(block_ok(m0, ranges, ro, a));
            assert(r1[ro[a]] == ranges[ro[a]]);
            if !m0[a].null() {
                assert(m0.contains_key(phy_next(m0, a)));
            }
            if !m0[a].null() && m0[a].prev_phy is Some {
                assert(m0.contains_key(m0[a].prev_phy.unwrap()));
            }
        }
    }
    assert forall|a: usize, b: usize| #[trigger] blocks_apart(m1, a, b) by {
        if m1.contains_key(a) && m1.contains_key(b) && a != b {
            if m0.contains_key(a) && m0.contains_key(b) {
                assert(blocks_apart(m0, a, b));
            } else if m0.contains_key(a) {
                assert(block_ok(m0, ranges, ro, a));
                assert(last + NULL_BLOCK_SIZE <= ranges[ro[a]].0 || ranges[ro[a]].1 <= first);
            } else if m0.contains_key(b) {
                assert(block_ok(m0, ranges, ro, b));
                assert(last + NULL_BLOCK_SIZE <= ranges[ro[b]].0 || ranges[ro[b]].1 <= first);
            }
        }
    }
}

/// Adding two fresh headers adds their weights.
proof fn lemma_sums_add(m0: Map<usize, BlockHeader>, m1: Map<usize, BlockHeader>, live: Map<usize, (usize, usize)>, first: usize, last: usize)
    requires
        m0.dom().finite(),
        !m0.contains_key(first),
        !m0.contains_key(last),
        first != last,
        m1.dom() == m0.dom().insert(first).insert(last),
        forall|k: usize| #[trigger] m0.contains_key(k) ==> m1[k] == m0[k],
    ensures
        set_sum(m1.dom(), total_weight(m1)) == set_sum(m0.dom(), total_weight(m0)) + total_weight(m1)(first) + total_weight(m1)(last),
        set_sum(m1.dom(), free_weight(m1)) == set_sum(m0.dom(), free_weight(m0)) + free_weight(m1)(first) + free_weight(m1)(last),
        set_sum(m1.dom(), used_weight(m1, live)) == set_sum(m0.dom(), used_weight(m0, live)) + used_weight(m1, live)(first) + used_weight(m1, live)(last),
{
    let s0 = m0.dom();
    assert forall|k: usize| s0.contains(k) implies total_weight(m0)(k) == total_weight(m1)(k)
        && free_weight(m0)(k) == free_weight(m1)(k) && used_weight(m0, live)(k)
        == used_weight(m1, live)(k) by {}
    lemma_set_sum_frame(s0, total_weight(m0), total_weight(m1));
    lemma_set_sum_frame(s0, free_weight(m0), free_weight(m1));
    lemma_set_sum_frame(s0, used_weight(m0, live), used_weight(m1, live));
    lemma_set_sum_insert(s0, total_weight(m1), first);
    lemma_set_sum_insert(s0.insert(first), total_weight(m1), last);
    lemma_set_sum_insert(s0, free_weight(m1), first);
    lemma_set_sum_insert(s0.insert(first), free_weight(m1), last);
    lemma_set_sum_insert(s0, used_weight(m1, live), first);
    lemma_set_sum_insert(s0.insert(first), used_weight(m1, live), last);
}

/// What `allocate(size, align)` leaves in `h1`, from `h0`, when it returns `r`.
pub open spec fn allocated(h0: Heap, size: usize, align: usize, r: Result<usize, AllocError>, h1: Heap) -> bool {
    &&& h1.wf()
    &&& r is Ok <==> can_serve(h0.blocks(), size, align)
    &&& r is Err ==> {
        &&& h1.blocks() == h0.blocks()
        &&& h1.live() == h0.live()
        &&& h1.used_spec() == h0.used_spec()
        &&& h1.avail_spec() == h0.avail_spec()
        &&& h1.total_spec() == h0.total_spec()
        &&& h1.ranges() == h0.ranges()
    }
    &&& r matches Ok(addr) ==> {
        let b = (addr - HEADER_SIZE) as usize;
        let d = h0.avail_spec() - h1.avail_spec() - h1.blocks()[b].cap();
        &&& addr as int % align as int == 0
        &&& !h0.live().contains_key(addr)
        &&& h1.live() == h0.live().insert(addr, (size, align))
        &&& addr >= HEADER_SIZE
        &&& h1.blocks().contains_key(b)
        &&& !h1.blocks()[b].free()
        &&& h1.blocks()[b].cap() >= min_block_size(size, align)
        &&& h1.blocks()[b].cap() < min_block_size(size, align) + 4 * WORD_SIZE
        &&& exists|x: usize|
            {
                &&& #[trigger] first_fit(h0.free_lists(), class_of(up_size(search_size(size, align))), x)
                &&& (b == x || (is_free_block(h1.blocks(), x) && phy_next(h1.blocks(), x) == b))
                &&& (align <= WORD_SIZE ==> b == x)
                &&& (phy_next(h1.blocks(), b) != phy_next(h0.blocks(), x) ==> next_is_free(h1.blocks(), b))
                &&& same_state_except(h0.blocks(), h1.blocks(), x)
            }
        &&& d == (if prev_is_free(h1.blocks(), b) {
            HEADER_SIZE as int
        } else {
            0
        }) + (if next_is_free(h1.blocks(), b) {
            HEADER_SIZE as int
        } else {
            0
        })
        &&& h1.used_spec() == h0.used_spec() + size
        &&& h1.total_spec() == h0.total_spec()
        &&& h1.ranges() == h0.ranges()
    }
}

/// What `deallocate(ptr, size, align)` leaves in `h1`, from `h0`: the block of `ptr`
/// is free and merged with whichever physical neighbours were free.
pub open spec fn freed(h0: Heap, ptr: usize, size: usize, align: usize, h1: Heap) -> bool {
    let m = h0.blocks();
    let b = (ptr - HEADER_SIZE) as usize;
    let n = phy_next(m, b);
    let nm = is_free_block(m, n);
    let pm = m[b].prev_phy is Some && m[m[b].prev_phy.unwrap()].free();
    let start = if pm {
        m[b].prev_phy.unwrap()
    } else {
        b
    };
    &&& h1.wf()
    &&& h1.live() == h0.live().remove(ptr)
    &&& h1.used_spec() == h0.used_spec() - size
    &&& h1.total_spec() == h0.total_spec()
    &&& h1.ranges() == h0.ranges()
    &&& is_free_block(h1.blocks(), start)
    &&& h1.blocks()[start].cap() == m[b].cap() + (if nm {
        HEADER_SIZE + m[n].cap()
    } else {
        0
    }) + (if pm {
        HEADER_SIZE + m[m[b].prev_phy.unwrap()].cap()
    } else {
        0
    })
    &&& h1.avail_spec() == h0.avail_spec() + m[b].cap() + (if nm {
        HEADER_SIZE as int
    } else {
        0
    }) + (if pm {
        HEADER_SIZE as int
    } else {
        0
    })
    &&& nm ==> !h1.blocks().contains_key(n)
    &&& pm ==> !h1.blocks().contains_key(b)
    &&& forall|k: usize|
        #[trigger] m.contains_key(k) && !m[k].free() && !m[k].null() && k != b ==> h1.blocks().contains_key(k)
            && h1.blocks()[k].cap() == m[k].cap() && !h1.blocks()[k].free()
}

/// Header changes that keep every size word keep which free blocks are adjacent.
proof fn lemma_apart_frame(m0: Map<usize, BlockHeader>, m1: Map<usize, BlockHeader>, a: usize)
    requires
        m1.dom() == m0.dom(),
        forall|k: usize| #[trigger] m1.contains_key(k) ==> m1[k].size == m0[k].size,
    ensures
        free_apart(m1, a) == free_apart(m0, a),
{
    if m0.contains_key(a) {
        assert(m1.contains_key(a));
        let n = phy_next(m0, a);
        assert(phy_next(m1, a) == n);
        if m0.contains_key(n) {
            assert(m1.contains_key(n));
        }
    }
}

/// A split keeps free blocks apart when the two pieces are not both free, a free
/// second piece is not followed by a free block, and a free first piece was free.
proof fn lemma_apart_split(m0: Map<usize, BlockHeader>, m1: Map<usize, BlockHeader>, ranges: Seq<(int, int)>, ro: Map<usize, int>, x: usize, c1: int)
    requires
        phys_ok(m0, ranges, ro),
        split_rel(m0, m1, x, c1),
        forall|a: usize| #[trigger] free_apart(m0, a),
        !(m1[x].free() && m1[(x + HEADER_SIZE + c1) as usize].free()),
        m1[(x + HEADER_SIZE + c1) as usize].free() ==> !is_free_block(m0, phy_next(m0, x)),
        m1[x].free() ==> m0[x].free(),
    ensures
        forall|a: usize| #[trigger] free_apart(m1, a),
{
    let y = (x + HEADER_SIZE + c1) as usize;
    let n = phy_next(m0, x);
    lemma_split_fresh(m0, m1, ranges, ro, x, c1);
    assert(block_ok(m0, ranges, ro, x));
    assert(0 <= ranges[ro[x]].0 <= ranges[ro[x]].1 <= usize::MAX);
    assert forall|a: usize| #[trigger] free_apart(m1, a) by {
        if a != x && a != y && m0.contains_key(a) {
            assert(free_apart(m0, a));
            assert(block_ok(m0, ranges, ro, a));
            if !m0[a].null() {
                let s = phy_next(m0, a);
                assert(phy_next(m1, a) == s);
                if s == x {
                    assert(free_apart(m0, a));
                }
                if s == n && a != x {
                    assert(blocks_apart(m0, a, x));
                }
            }
        }
        if a == y {
            assert(phy_next(m1, y) == n);
        }
    }
}

/// Marking a block used keeps free blocks apart.
proof fn lemma_apart_used(m0: Map<usize, BlockHeader>, m1: Map<usize, BlockHeader>, ranges: Seq<(int, int)>, ro: Map<usize, int>, x: usize)
    requires
        phys_ok(m0, ranges, ro),
        flag_rel(m0, m1, x, false),
        forall|a: usize| #[trigger] free_apart(m0, a),
    ensures
        forall|a: usize| #[trigger] free_apart(m1, a),
{
    assert forall|a: usize| #[trigger] free_apart(m1, a) by {
        assert(free_apart(m0, a));
        if m0.contains_key(a) {
            let s = phy_next(m0, a);
            assert(phy_next(m1, a) == s);
            if m0.contains_key(s) {
                assert(m1.contains_key(s));
            }
        }
    }
}

/// Marking a block free keeps free blocks apart everywhere but next to it.
proof fn lemma_apart_freed(m0: Map<usize, BlockHeader>, m1: Map<usize, BlockHeader>, x: usize)
    requires
        flag_rel(m0, m1, x, true),
        forall|a: usize| #[trigger] free_apart(m0, a),
    ensures
        forall|a: usize| a != x && phy_next(m1, a) != x ==> #[trigger] free_apart(m1, a),
{
    assert forall|a: usize| a != x && phy_next(m1, a) != x implies #[trigger] free_apart(m1, a) by {
        assert(free_apart(m0, a));
        if m0.contains_key(a) {
            let s = phy_next(m0, a);
            assert(phy_next(m1, a) == s);
            if m0.contains_key(s) {
                assert(m1.contains_key(s));
            }
        }
    }
}

/// Merging two blocks keeps free blocks apart everywhere but next to the merged one.
proof fn lemma_apart_merge(m0: Map<usize, BlockHeader>, m1: Map<usize, BlockHeader>, ranges: Seq<(int, int)>, ro: Map<usize, int>, a: usize)
    requires
        phys_ok(m0, ranges, ro),
        merge_rel(m0, m1, a),
        forall|b: usize|
            b != a && b != phy_next(m0, a) && phy_next(m0, b) != a && phy_next(m0, b) != phy_next(m0, a)
                ==> #[trigger] free_apart(m0, b),
    ensures
        forall|b: usize| b != a && phy_next(m1, b) != a ==> #[trigger] free_apart(m1, b),
{
    let n = phy_next(m0, a);
    let nn = phy_next(m0, n);
    assert(block_ok(m0, ranges, ro, a));
    assert(block_ok(m0, ranges, ro, n));
    assert(0 <= ranges[ro[n]].0 <= ranges[ro[n]].1 <= usize::MAX);
    assert forall|b: usize| b != a && phy_next(m1, b) != a implies #[trigger] free_apart(m1, b) by {
        if m1.contains_key(b) {
            assert(b != n);
            assert(block_ok(m0, ranges, ro, b));
            let s = phy_next(m0, b);
            assert(phy_next(m1, b) == s);
            if !m0[b].null() {
                if s == n {
                    assert(blocks_apart(m0, a, b));
                }
                assert(free_apart(m0, b));
                if m0.contains_key(s) && s != n {
                    assert(m1.contains_key(s));
                }
            }
        }
    }
}

/// A fresh range keeps free blocks apart.
proof fn lemma_apart_add(m0: Map<usize, BlockHeader>, m1: Map<usize, BlockHeader>, ranges: Seq<(int, int)>, ro: Map<usize, int>, first: usize, last: usize)
    requires
        phys_ok(m0, ranges, ro),
        forall|a: usize| #[trigger] free_apart(m0, a),
        !m0.contains_key(first),
        !m0.contains_key(last),
        m1.dom() == m0.dom().insert(first).insert(last),
        forall|k: usize| #[trigger] m0.contains_key(k) ==> m1[k] == m0[k],
        phy_next(m1, first) == last,
        m1[last].null(),
    ensures
        forall|a: usize| #[trigger] free_apart(m1, a),
{
    assert forall|a: usize| #[trigger] free_apart(m1, a) by {
        if m0.contains_key(a) {
            assert(free_apart(m0, a));
            assert(block_ok(m0, ranges, ro, a));
        }
    }
}

/// A heap over registered address ranges. The controller indexes the free blocks;
/// the counters give the bytes registered (`total`), asked for by live allocations
/// (`used`) and held by free blocks (`avail`). The ghost fields record the ranges,
/// the range of each block and the live allocations, for the contracts.
pub struct Heap {
    head: Controller,
    mem: HashMap<usize, BlockHeader>,
    total_mem: usize,
    used_mem: usize,
    avail_mem: usize,
    ranges: Ghost<Seq<(int, int)>>,
    range_of: Ghost<Map<usize, int>>,
    live: Ghost<Map<usize, (usize, usize)>>,
    ctrl: Ghost<Option<int>>,
}

impl Heap {
    /// Every block header, by address.
    pub closed spec fn blocks(&self) -> Map<usize, BlockHeader> {
        self.mem@
    }

    /// The live allocations: payload address to the size and alignment asked for.
    pub closed spec fn live(&self) -> Map<usize, (usize, usize)> {
        self.live@
    }

    /// The free lists of the index, by class, head first.
    pub closed spec fn free_lists(&self) -> Seq<Seq<usize>> {
        self.head.lists@
    }

    /// Where the controller was placed by `init`, if it was.
    pub closed spec fn controller_area(&self) -> Option<int> {
        self.ctrl@
    }

    /// The registered address ranges, as `[start, end)`; the first one starts after
    /// the controller.
    pub closed spec fn ranges(&self) -> Seq<(int, int)> {
        self.ranges@
    }

    pub closed spec fn total_spec(&self) -> int {
        self.total_mem as int
    }

    pub closed spec fn used_spec(&self) -> int {
        self.used_mem as int
    }

    pub closed spec fn avail_spec(&self) -> int {
        self.avail_mem as int
    }

    /// The heap's invariant.
    pub closed spec fn wf(&self) -> bool {
        let m = self.mem@;
        let ranges = self.ranges@;
        &&& self.head.wf(m)
        &&& self.head.covers(m)
        &&& phys_ok(m, ranges, self.range_of@)
        &&& live_ok(m, self.live@)
        &&& forall|a: usize| #[trigger] free_apart(m, a)
        &&& self.total_mem == set_sum(m.dom(), total_weight(m))
        &&& self.avail_mem == set_sum(m.dom(), free_weight(m))
        &&& self.used_mem == set_sum(m.dom(), used_weight(m, self.live@))
    }

    /// An empty heap: no range registered yet, so every allocation fails.
    pub fn new() -> (r: Self)
        ensures
            r.wf(),
            r.blocks() == Map::<usize, BlockHeader>::empty(),
            r.live() == Map::<usize, (usize, usize)>::empty(),
            r.ranges() == Seq::<(int, int)>::empty(),
            r.total_spec() == 0,
            r.used_spec() == 0,
            r.avail_spec() == 0,
    {
        let r = Heap {
            head: Controller::new(),
            mem: HashMap::new(),
            total_mem: 0,
            used_mem: 0,
            avail_mem: 0,
            ranges: Ghost(Seq::empty()),
            ctrl: Ghost(None),
            range_of: Ghost(Map::empty()),
            live: Ghost(Map::empty()),
        };
        assert(r.mem@.dom() =~= Set::empty());
        proof {
            crate::set_sum::lemma_set_sum_empty(total_weight(r.mem@));
            crate::set_sum::lemma_set_sum_empty(free_weight(r.mem@));
            crate::set_sum::lemma_set_sum_empty(used_weight(r.mem@, r.live@));
        }
        r
    }

    /// Bytes that the registered ranges offer, without the controller and the
    /// headers that start and close each range.
    pub fn total_bytes(&self) -> (r: usize)
        ensures
            r == self.total_spec(),
    {
        self.total_mem
    }

    /// Bytes asked for by the live allocations.
    pub fn used_bytes(&self) -> (r: usize)
        ensures
            r == self.used_spec(),
    {
        self.used_mem
    }

    /// Bytes held by free blocks.
    pub fn available_bytes(&self) -> (r: usize)
        ensures
            r == self.avail_spec(),
    {
        self.avail_mem
    }

    /// Places the controller at `heap_start_addr` and makes the rest of the range one
    /// free block, closed by a null block. Whatever was registered before is dropped.
    #[verifier::spinoff_prover]
    #[verifier::rlimit(100)]
    pub fn init(&mut self, heap_start_addr: usize, heap_size: usize)
        requires
            heap_start_addr % PAGE_SIZE == 0,
            heap_size % PAGE_SIZE == 0,
            heap_size > CONTROLLER_SIZE + NULL_BLOCK_SIZE + HEADER_SIZE,
            heap_size <= MAX_BLOCK_SIZE,
            heap_start_addr + heap_size <= usize::MAX,
        ensures
            final(self).wf(),
            final(self).ranges() == seq![((heap_start_addr + CONTROLLER_SIZE) as int, heap_start_addr + heap_size)],
            final(self).controller_area() == Some(heap_start_addr as int),
            final(self).live().is_empty(),
            final(self).total_spec() == heap_size - CONTROLLER_SIZE - NULL_BLOCK_SIZE - HEADER_SIZE,
            final(self).avail_spec() == final(self).total_spec(),
            final(self).used_spec() == 0,
            final(self).blocks().dom() == set![
                (heap_start_addr + CONTROLLER_SIZE) as usize,
                (heap_start_addr + heap_size - NULL_BLOCK_SIZE) as usize,
            ],
            is_free_block(final(self).blocks(), (heap_start_addr + CONTROLLER_SIZE) as usize),
            final(self).blocks()[(heap_start_addr + CONTROLLER_SIZE) as usize].cap()
                == final(self).total_spec(),
            final(self).blocks()[(heap_start_addr + heap_size - NULL_BLOCK_SIZE) as usize].null(),
    {
        let first = heap_start_addr + CONTROLLER_SIZE;
        let last = heap_start_addr + heap_size - NULL_BLOCK_SIZE;
        let cap = heap_size - CONTROLLER_SIZE - NULL_BLOCK_SIZE - HEADER_SIZE;
        proof {
            assert(heap_start_addr % 8 == 0 && heap_size % 8 == 0) by (nonlinear_arith)
                requires
                    heap_start_addr % 4096 == 0,
                    heap_size % 4096 == 0,
            ;
        }
        self.head = Controller::new();
        self.mem = HashMap::new();
        self.mem.insert(first, BlockHeader::new(None, cap, true, false));
        self.mem.insert(last, BlockHeader::new(None, 0, false, true));
        let ghost m0 = self.mem@;
        proof {
            assert(m0.dom() =~= set![first, last]);
            assert forall|c: int| 0 <= c < CLASS_COUNT implies !#[trigger] self.head.lists@[c].contains(
                first,
            ) by {}
            self.head.lemma_empty_wf(m0);
        }
        self.head.add_into_list(&mut self.mem, first);
        let ghost rs = seq![((heap_start_addr + CONTROLLER_SIZE) as int, heap_start_addr + heap_size)];
        self.ctrl = Ghost(Some(heap_start_addr as int));
        let ghost ro = map![first => 0int, last => 0int];
        self.ranges = Ghost(rs);
        self.range_of = Ghost(ro);
        self.live = Ghost(Map::empty());
        self.total_mem = cap;
        self.used_mem = 0;
        self.avail_mem = cap;
        proof {
            let m = self.mem@;
            assert(m.dom() =~= set![first, last]);
            assert(self.range_of@.dom() =~= m.dom());
            assert(m.contains_key(first) && m.contains_key(last));
            assert(same_phys_fields(m[first], m0[first]));
            assert(same_phys_fields(m[last], m0[last]));
            lemma_fresh_range(m, self.ranges@, self.range_of@, first, last);
            assert(live_ok(m, self.live@)) by {
                assert forall|a: usize| m.contains_key(a) implies #[trigger] used_has_alloc(
                    m,
                    self.live@,
                    a,
                ) by {}
            }
            crate::size_class::lemma_class_of_bounds(m0[first].cap());
            assert(self.head.lists@[class_of(m0[first].cap())].contains(first));
            assert forall|x: usize| #[trigger]
                m.contains_key(x) && m[x].free() && !m[x].null() implies self.head.lists@[class_of(
                m[x].cap(),
            )].contains(x) by {
                assert(x == first || x == last);
            }
            let e = Set::<usize>::empty();
            crate::set_sum::lemma_set_sum_empty(total_weight(m));
            crate::set_sum::lemma_set_sum_empty(free_weight(m));
            crate::set_sum::lemma_set_sum_empty(used_weight(m, self.live@));
            assert(m.dom() =~= e.insert(first).insert(last));
            lemma_set_sum_insert(e, total_weight(m), first);
            lemma_set_sum_insert(e.insert(first), total_weight(m), last);
            lemma_set_sum_insert(e, free_weight(m), first);
            lemma_set_sum_insert(e.insert(first), free_weight(m), last);
            lemma_set_sum_insert(e, used_weight(m, self.live@), first);
            lemma_set_sum_insert(e.insert(first), used_weight(m, self.live@), last);
        }
    }

    /// Writes the headers that cut the block at `x` after `c1` bytes of payload: `x`
    /// keeps `c1` bytes and flag `free1`, the new block after it takes the rest and
    /// flag `free2`. Returns the new block's address.
    #[verifier::spinoff_prover]
    #[verifier::rlimit(60)]
    fn split_mem(
        mem: &mut HashMap<usize, BlockHeader>,
        x: usize,
        c1: usize,
        free1: bool,
        free2: bool,
    ) -> (y: usize)
        requires
            old(mem)@.contains_key(x),
            !old(mem)@[x].null(),
            c1 >= 16,
            c1 % 8 == 0,
            c1 + HEADER_SIZE + 16 <= old(mem)@[x].cap(),
            x + HEADER_SIZE + old(mem)@[x].cap() <= usize::MAX,
            old(mem)@.contains_key(phy_next(old(mem)@, x)),
            phy_next(old(mem)@, x) != x,
            !old(mem)@.contains_key((x + HEADER_SIZE + c1) as usize),
        ensures
            y == x + HEADER_SIZE + c1,
            split_rel(old(mem)@, final(mem)@, x, c1 as int),
            final(mem)@[x].free() == free1,
            final(mem)@[y].free() == free2,
            final(mem)@[x].prev_free == old(mem)@[x].prev_free,
            final(mem)@[x].next_free == old(mem)@[x].next_free,
            ({
                let n = phy_next(old(mem)@, x);
                &&& final(mem)@[n].prev_free == old(mem)@[n].prev_free
                &&& final(mem)@[n].next_free == old(mem)@[n].next_free
            }),
    {
        let ghost m0 = mem@;
        let hx = *mem.get(&x).unwrap();
        let cap = hx.get_size();
        let n = x + HEADER_SIZE + cap;
        let y = x + HEADER_SIZE + c1;
        let mut hx2 = hx;
        hx2.set_size(c1);
        if free1 {
            hx2.set_free();
        } else {
            hx2.set_used();
        }
        mem.insert(x, hx2);
        mem.insert(y, BlockHeader::new(Some(x), cap - c1 - HEADER_SIZE, free2, free1));
        let mut hn = *mem.get(&n).unwrap();
        if !hn.is_null() {
            hn.prev_phy = Some(y);
        }
        hn.set_prev_free_flag(free2);
        mem.insert(n, hn);
        proof {
            let m1 = mem@;
            assert(m1 == m0.insert(x, hx2).insert(y, BlockHeader::new_spec(Some(x), (cap - c1 - HEADER_SIZE) as usize, free2, free1)).insert(n, hn));
            assert(m1.dom() =~= m0.dom().insert(y));
            assert(m1[x] == hx2 && m1[n] == hn);
        }
        y
    }

    /// Writes the free flag `f` into the block at `x` and into its successor.
    #[verifier::spinoff_prover]
    fn flag_mem(
        mem: &mut HashMap<usize, BlockHeader>,
        x: usize,
        f: bool,
    )
        requires
            old(mem)@.contains_key(x),
            !old(mem)@[x].null(),
            x + HEADER_SIZE + old(mem)@[x].cap() <= usize::MAX,
            old(mem)@.contains_key(phy_next(old(mem)@, x)),
            phy_next(old(mem)@, x) != x,
        ensures
            flag_rel(old(mem)@, final(mem)@, x, f),
    {
        let ghost m0 = mem@;
        let hx = *mem.get(&x).unwrap();
        let cap = hx.get_size();
        let n = x + HEADER_SIZE + cap;
        let mut hx2 = hx;
        if f {
            hx2.set_free();
        } else {
            hx2.set_used();
        }
        mem.insert(x, hx2);
        let mut hn = *mem.get(&n).unwrap();
        hn.set_prev_free_flag(f);
        mem.insert(n, hn);
        proof {
            assert(mem@.dom() =~= m0.dom());
        }
    }

    /// The invariant while block `blk` is being carved out for an allocation: it is
    /// out of the index and counted as `bcap` available bytes; all else is as in `wf`.
    closed spec fn mid_ok(&self, blk: usize, bcap: int) -> bool {
        let m = self.mem@;
        let live = self.live@;
        &&& phys_ok(m, self.ranges@, self.range_of@)
        &&& self.head.wf(m)
        &&& forall|z: usize|
            #[trigger] m.contains_key(z) && m[z].free() && !m[z].null() && z != blk
                ==> self.head.lists@[class_of(m[z].cap())].contains(z)
        &&& forall|z: usize|
            m.contains_key(z) && z != blk ==> #[trigger] used_has_alloc(m, live, z)
        &&& forall|p: usize| live.contains_key(p) ==> #[trigger] alloc_ok(m, live, p)
        &&& forall|a: usize| #[trigger] free_apart(m, a)
        &&& !is_free_block(m, phy_next(m, blk))
        &&& m.contains_key(blk)
        &&& !m[blk].null()
        &&& m[blk].cap() == bcap
        &&& !self.head.listed(blk)
        &&& !live.contains_key((blk + HEADER_SIZE) as usize)
        &&& self.total_mem == set_sum(m.dom(), total_weight(m))
        &&& self.used_mem == set_sum(m.dom(), used_weight(m, live))
        &&& self.avail_mem == set_sum(m.dom(), free_weight(m)) + bcap - free_weight(m)(blk)
    }

    /// Cuts the unaligned head off block `x` (of capacity `nsize`) and gives it back
    /// to the index; returns the aligned block, its capacity and its payload address.
    #[verifier::spinoff_prover]
    fn cut_head(&mut self, x: usize, nsize: usize, align: usize, bsize: usize, search: usize) -> (r: (usize, usize, usize))
        requires
            old(self).mid_ok(x, nsize as int),
            old(self).blocks()[x].free(),
            x % 8 == 0,
            align > WORD_SIZE,
            is_pow2(align),
            nsize >= search,
            search >= bsize + align + 4 * WORD_SIZE,
            bsize >= 16,
        ensures
            final(self).mid_ok(r.0, r.1 as int),
            r.2 == r.0 + HEADER_SIZE,
            r.2 as int % align as int == 0,
            r.1 >= bsize,
            r.0 % 8 == 0,
            final(self).ranges() == old(self).ranges(),
            final(self).live() == old(self).live(),
            final(self).total_mem == old(self).total_mem,
            final(self).used_mem == old(self).used_mem,
            final(self).avail_mem + (if r.0 == x { 0 } else { HEADER_SIZE as int }) == old(self).avail_mem,
            r.0 == x ==> !prev_is_free(final(self).blocks(), x),
            r.0 != x ==> prev_is_free(final(self).blocks(), r.0),
            r.0 != x ==> is_free_block(final(self).blocks(), x) && phy_next(final(self).blocks(), x) == r.0,
            phy_next(final(self).blocks(), r.0) == phy_next(old(self).blocks(), x),
            same_state_except(old(self).blocks(), final(self).blocks(), x),
            r.0 != x ==> !old(self).blocks().contains_key(r.0),
    {
        let ghost m0 = self.mem@;
        let ghost live = self.live@;
        let ghost ranges = self.ranges@;
        let ghost ro0 = self.range_of@;
        proof {
            lemma_next_facts(m0, ranges, self.range_of@, x);
            lemma_big_align(align);
        }
        let addr = x + HEADER_SIZE;
        proof {
            assert(block_ok(m0, ranges, ro0, x));
            if m0[x].prev_phy is Some {
                let q = m0[x].prev_phy.unwrap();
                assert(free_apart(m0, q));
            }
        }
        let mut new_addr = alignto(addr, align);
        if new_addr == addr {
            return (x, nsize, addr);
        }
        while new_addr - x < 6 * WORD_SIZE
            invariant
                new_addr % align == 0,
                addr < new_addr < x + 6 * WORD_SIZE + align,
                x + HEADER_SIZE + nsize <= usize::MAX,
                nsize >= search,
                search >= bsize + align + 4 * WORD_SIZE,
                bsize >= 16,
                addr == x + HEADER_SIZE,
                align > WORD_SIZE,
            decreases (6 * WORD_SIZE) as int + align - (new_addr - x),
        {
            new_addr = new_addr + align;
            proof {
                vstd::arithmetic::div_mod::lemma_mod_add_multiples_vanish(
                    (new_addr - align) as int,
                    align as int,
                );
            }
        }
        let pre_size = new_addr - HEADER_SIZE - addr;
        proof {
            lemma_mod_chain(new_addr as int, align as int, 8);
        }
        let y = Self::split_mem(&mut self.mem, x, pre_size, true, false);
        let ghost m1 = self.mem@;
        proof {
            lemma_split(m0, m1, ranges, self.range_of@, x, pre_size as int);
            assert(!m0.contains_key(y));
            assert(!live.contains_key((y + HEADER_SIZE) as usize)) by {
                if live.contains_key((y + HEADER_SIZE) as usize) {
                    assert(alloc_ok(m0, live, (y + HEADER_SIZE) as usize));
                }
            }
            lemma_sums_split(m0, m1, ranges, self.range_of@, live, x, pre_size as int);
            assert forall|z: usize| #[trigger] self.head.listed(z) implies m1.contains_key(z)
                && crate::controller::same_list_view(m0[z], m1[z]) by {
                let c = choose|c: int| 0 <= c < CLASS_COUNT && #[trigger] self.head.lists@[c].contains(z);
                assert(crate::controller::list_ok(m0, self.head.lists@[c], self.head.blocks@[c], c));
                let k = choose|k: int| 0 <= k < self.head.lists@[c].len() && self.head.lists@[c][k] == z;
                assert(crate::controller::node_ok(m0, self.head.lists@[c], c, k));
            }
            self.head.lemma_wf_frame(m0, m1);
            assert(m1[x].cap() < MAX_BLOCK_SIZE) by {
                assert(block_ok(m0, ranges, self.range_of@, x));
                assert(0 <= ranges[self.range_of@[x]].0 <= ranges[self.range_of@[x]].1 <= usize::MAX);
            }
        }
        let ghost head1 = self.head;
        self.range_of = Ghost(self.range_of@.insert(y, self.range_of@[x]));
        self.head.add_into_list(&mut self.mem, x);
        let ghost m2 = self.mem@;
        proof {
            lemma_phys_frame(m1, m2, ranges, self.range_of@);
            lemma_sums_frame(m1, m2, live);
            assert forall|z: usize|
                #[trigger] m2.contains_key(z) && m2[z].free() && !m2[z].null() && z != y
                    implies self.head.lists@[class_of(m2[z].cap())].contains(z) by {
                assert(same_phys_fields(m2[z], m1[z]));
                assert(block_ok(m1, ranges, self.range_of@, z));
                assert(0 <= ranges[self.range_of@[z]].0 <= ranges[self.range_of@[z]].1 <= usize::MAX);
                crate::size_class::lemma_class_of_bounds(m2[z].cap());
                if z != x {
                    assert(m0.contains_key(z));
                    assert(m1[z].cap() == m0[z].cap() && m1[z].free() == m0[z].free()
                        && m1[z].null() == m0[z].null());
                    assert(head1.lists@[class_of(m0[z].cap())].contains(z));
                } else {
                    assert(self.head.lists@[class_of(m1[x].cap())].contains(x));
                }
            }
            assert forall|z: usize| m2.contains_key(z) && z != y implies #[trigger] used_has_alloc(m2, live, z) by {
                assert(same_phys_fields(m2[z], m1[z]));
                if z != x {
                    assert(used_has_alloc(m0, live, z));
                }
            }
            assert forall|p: usize| live.contains_key(p) implies #[trigger] alloc_ok(m2, live, p) by {
                assert(alloc_ok(m0, live, p));
                let b = (p - HEADER_SIZE) as usize;
                assert(m1.contains_key(b));
                assert(m2.contains_key(b));
                assert(same_phys_fields(m2[b], m1[b]));
            }
            assert(!self.head.listed(y)) by {
                if self.head.listed(y) {
                    let c = choose|c: int| 0 <= c < CLASS_COUNT && #[trigger] self.head.lists@[c].contains(y);
                    assert(head1.lists@[c].contains(y));
                    assert(crate::controller::list_ok(m1, head1.lists@[c], head1.blocks@[c], c));
                    let k = choose|k: int| 0 <= k < head1.lists@[c].len() && head1.lists@[c][k] == y;
                    assert(crate::controller::node_ok(m1, head1.lists@[c], c, k));
                }
            }
            assert(m2.contains_key(y));
            assert(same_phys_fields(m2[y], m1[y]));
            assert(m2.contains_key(x));
            assert(same_phys_fields(m2[x], m1[x]));
            lemma_apart_split(m0, m1, ranges, ro0, x, pre_size as int);
            assert forall|a: usize| #[trigger] free_apart(m2, a) by {
                lemma_apart_frame(m1, m2, a);
            }
            assert(prev_is_free(m2, y));
            let n0 = phy_next(m0, x);
            assert(m2.contains_key(n0));
            assert forall|k: usize| #[trigger] m0.contains_key(k) && k != x implies m2.contains_key(k) && m2[k].cap() == m0[k].cap()
                && m2[k].free() == m0[k].free() && m2[k].null() == m0[k].null() by {
                assert(m1.contains_key(k));
                assert(same_phys_fields(m2[k], m1[k]));
            }
            assert(same_phys_fields(m2[n0], m1[n0]));
            assert(phy_next(m2, y) == n0);
            assert forall|k: usize| m0.dom().contains(k) implies free_weight(m0)(k) >= 0 by {}
            crate::set_sum::lemma_set_sum_ge_elem(m0.dom(), free_weight(m0), x);
        }
        self.avail_mem = self.avail_mem - HEADER_SIZE;
        (y, nsize - pre_size - HEADER_SIZE, new_addr)
    }

    /// Marks block `blk` used for the allocation at `addr`, first giving a large
    /// enough tail back to the index, and records the allocation.
    #[verifier::spinoff_prover]
    fn finish_alloc(&mut self, blk: usize, bcap: usize, bsize: usize, size: usize, align: usize, addr: usize)
        requires
            old(self).mid_ok(blk, bcap as int),
            bcap >= bsize,
            bsize >= 16,
            bsize % 8 == 0,
            bsize == min_block_size(size, align),
            size <= bsize,
            addr == blk + HEADER_SIZE,
            addr as int % align as int == 0,
            is_pow2(align),
        ensures
            final(self).wf(),
            !old(self).live().contains_key(addr),
            final(self).live() == old(self).live().insert(addr, (size, align)),
            final(self).used_spec() == old(self).used_spec() + size,
            final(self).total_spec() == old(self).total_spec(),
            final(self).blocks().contains_key(blk),
            !final(self).blocks()[blk].free(),
            final(self).blocks()[blk].cap() >= bsize,
            old(self).avail_spec() - final(self).avail_spec() - final(self).blocks()[blk].cap() == (
            if next_is_free(final(self).blocks(), blk) {
                HEADER_SIZE as int
            } else {
                0
            }),
            prev_is_free(final(self).blocks(), blk) == prev_is_free(old(self).blocks(), blk),
            final(self).ranges() == old(self).ranges(),
            same_state_except(old(self).blocks(), final(self).blocks(), blk),
            final(self).blocks()[blk].cap() < bsize + 4 * WORD_SIZE,
            phy_next(final(self).blocks(), blk) != phy_next(old(self).blocks(), blk) ==> next_is_free(
                final(self).blocks(),
                blk,
            ),
    {
        let ghost m0 = self.mem@;
        let ghost live = self.live@;
        let ghost ranges = self.ranges@;
        let ghost head0 = self.head;
        let ghost ro0 = self.range_of@;
        proof {
            lemma_next_facts(m0, ranges, self.range_of@, blk);
            assert(block_ok(m0, ranges, self.range_of@, blk));
            assert(0 <= ranges[self.range_of@[blk]].0 <= ranges[self.range_of@[blk]].1 <= usize::MAX);
            assert forall|k: usize| m0.dom().contains(k) implies free_weight(m0)(k) >= 0 by {}
            crate::set_sum::lemma_set_sum_ge_elem(m0.dom(), free_weight(m0), blk);
        }
        let mut fcap = bcap;
        if bcap - bsize >= 4 * WORD_SIZE {
            let t = Self::split_mem(&mut self.mem, blk, bsize, false, true);
            let ghost m1 = self.mem@;
            proof {
                lemma_split(m0, m1, ranges, self.range_of@, blk, bsize as int);
                assert(!live.contains_key((t + HEADER_SIZE) as usize)) by {
                    if live.contains_key((t + HEADER_SIZE) as usize) {
                        assert(alloc_ok(m0, live, (t + HEADER_SIZE) as usize));
                    }
                }
                lemma_sums_split(m0, m1, ranges, self.range_of@, live, blk, bsize as int);
                assert forall|z: usize| #[trigger] self.head.listed(z) implies m1.contains_key(z)
                    && crate::controller::same_list_view(m0[z], m1[z]) by {
                    let c = choose|c: int| 0 <= c < CLASS_COUNT && #[trigger] self.head.lists@[c].contains(z);
                    assert(crate::controller::list_ok(m0, self.head.lists@[c], self.head.blocks@[c], c));
                    let k = choose|k: int| 0 <= k < self.head.lists@[c].len() && self.head.lists@[c][k] == z;
                    assert(crate::controller::node_ok(m0, self.head.lists@[c], c, k));
                }
                self.head.lemma_wf_frame(m0, m1);
                assert(!self.head.listed(t)) by {
                    if self.head.listed(t) {
                        let c = choose|c: int| 0 <= c < CLASS_COUNT && #[trigger] self.head.lists@[c].contains(t);
                        assert(crate::controller::list_ok(m0, self.head.lists@[c], self.head.blocks@[c], c));
                        let k = choose|k: int| 0 <= k < self.head.lists@[c].len() && self.head.lists@[c][k] == t;
                        assert(crate::controller::node_ok(m0, self.head.lists@[c], c, k));
                    }
                }
            }
            self.range_of = Ghost(self.range_of@.insert(t, self.range_of@[blk]));
            self.head.add_into_list(&mut self.mem, t);
            proof {
                let m2 = self.mem@;
                lemma_phys_frame(m1, m2, ranges, self.range_of@);
                lemma_sums_frame(m1, m2, live);
                assert forall|z: usize| m0.contains_key(z) && z != blk implies #[trigger] m2.contains_key(z)
                    && m2[z].cap() == m0[z].cap() && m2[z].free() == m0[z].free() && m2[z].null()
                    == m0[z].null() by {
                    assert(m1.contains_key(z));
                    assert(same_phys_fields(m2[z], m1[z]));
                }
                assert(m2.contains_key(blk));
                assert(same_phys_fields(m2[blk], m1[blk]));
                assert(m2.contains_key(t));
                assert(same_phys_fields(m2[t], m1[t]));
                assert(m2.dom() == m0.dom().insert(t));
                assert(forall|c: int, z: usize|
                    0 <= c < CLASS_COUNT && #[trigger] head0.lists@[c].contains(z) ==> self.head.lists@[c].contains(z));
                assert(m1[t].cap() < MAX_BLOCK_SIZE);
                crate::size_class::lemma_class_of_bounds(m1[t].cap());
                assert(self.head.lists@[class_of(m2[t].cap())].contains(t));
                assert(m2[t].free() && !m2[t].null());
                lemma_apart_split(m0, m1, ranges, ro0, blk, bsize as int);
                assert forall|a: usize| #[trigger] free_apart(m2, a) by {
                    lemma_apart_frame(m1, m2, a);
                }
            }
            self.avail_mem = self.avail_mem - HEADER_SIZE;
            fcap = bsize;
        } else {
            Self::flag_mem(&mut self.mem, blk, false);
            let ghost m1 = self.mem@;
            proof {
                lemma_flag(m0, m1, ranges, self.range_of@, blk, false);
                lemma_sums_flag(m0, m1, ranges, self.range_of@, live, blk, false);
                lemma_apart_used(m0, m1, ranges, self.range_of@, blk);
                assert forall|z: usize| #[trigger] self.head.listed(z) implies m1.contains_key(z)
                    && crate::controller::same_list_view(m0[z], m1[z]) by {
                    let c = choose|c: int| 0 <= c < CLASS_COUNT && #[trigger] self.head.lists@[c].contains(z);
                    assert(crate::controller::list_ok(m0, self.head.lists@[c], self.head.blocks@[c], c));
                    let k = choose|k: int| 0 <= k < self.head.lists@[c].len() && self.head.lists@[c][k] == z;
                    assert(crate::controller::node_ok(m0, self.head.lists@[c], c, k));
                }
                self.head.lemma_wf_frame(m0, m1);
                assert forall|z: usize| m0.contains_key(z) && z != blk implies #[trigger] m1.contains_key(z)
                    && m1[z].cap() == m0[z].cap() && m1[z].free() == m0[z].free() && m1[z].null()
                    == m0[z].null() by {}
            }
        }
        let ghost mf = self.mem@;
        proof {
            assert(mf.contains_key(blk) && !mf[blk].free() && !mf[blk].null() && mf[blk].cap() == fcap);
            assert(forall|z: usize|
                m0.contains_key(z) && z != blk ==> #[trigger] mf.contains_key(z) && mf[z].cap()
                    == m0[z].cap() && mf[z].free() == m0[z].free() && mf[z].null() == m0[z].null());
        }
        let ghost live1 = live.insert(addr, (size, align));
        proof {
            assert forall|k: usize| m0.dom().contains(k) && k != blk implies used_weight(mf, live)(k)
                == used_weight(mf, live1)(k) by {
                assert(mf.contains_key(k));
                if !mf[k].null() {
                    lemma_next_facts(m0, ranges, ro0, k);
                }
            }
            assert forall|k: usize| mf.dom().contains(k) && k != blk implies used_weight(mf, live)(k)
                == used_weight(mf, live1)(k) by {
                if !m0.contains_key(k) {
                    assert(mf[k].free() || (k + HEADER_SIZE) as usize != addr);
                    if !mf[k].free() && !mf[k].null() {
                        assert(live.contains_key((k + HEADER_SIZE) as usize) ==> alloc_ok(m0, live, (k + HEADER_SIZE) as usize));
                    }
                }
            }
            lemma_set_sum_point(mf.dom(), used_weight(mf, live), used_weight(mf, live1), blk);
            assert forall|k: usize|
                #[trigger] mf.contains_key(k) && !mf[k].free() && !mf[k].null() && live1.contains_key(
                    (k + HEADER_SIZE) as usize,
                ) implies live1[(k + HEADER_SIZE) as usize].0 <= mf[k].cap() by {
                if k != blk {
                    let p = (k + HEADER_SIZE) as usize;
                    if !m0.contains_key(k) {
                        assert(live.contains_key(p) ==> alloc_ok(m0, live, p));
                    } else {
                        lemma_next_facts(m0, ranges, ro0, k);
                        assert(p != addr);
                        assert(alloc_ok(m0, live, p));
                    }
                }
            }
            lemma_weights_bound(mf, live1);
        }
        self.used_mem = self.used_mem + size;
        self.avail_mem = self.avail_mem - fcap;
        self.live = Ghost(live1);
        proof {
            assert(!live.contains_key(addr));
            assert(forall|c: int, z: usize|
                0 <= c < CLASS_COUNT && #[trigger] head0.lists@[c].contains(z) ==> self.head.lists@[c].contains(z));
            assert forall|z: usize| #[trigger]
                mf.contains_key(z) && mf[z].free() && !mf[z].null() implies self.head.lists@[class_of(
                mf[z].cap(),
            )].contains(z) by {
                if z != blk && m0.contains_key(z) {
                    assert(head0.lists@[class_of(m0[z].cap())].contains(z));
                    assert(block_ok(m0, ranges, ro0, z));
                    assert(0 <= ranges[ro0[z]].0 <= ranges[ro0[z]].1 <= usize::MAX);
                    crate::size_class::lemma_class_of_bounds(m0[z].cap());
                }
            }
            assert forall|z: usize| mf.contains_key(z) implies #[trigger] used_has_alloc(mf, live1, z) by {
                if z != blk && m0.contains_key(z) {
                    assert(used_has_alloc(m0, live, z));
                }
            }
            assert forall|p: usize| live1.contains_key(p) implies #[trigger] alloc_ok(mf, live1, p) by {
                if p != addr {
                    assert(alloc_ok(m0, live, p));
                    let b = (p - HEADER_SIZE) as usize;
                    assert(b != blk);
                    assert(mf.contains_key(b));
                }
            }
            assert(self.head.covers(mf));
            assert(live_ok(mf, live1));
        }
    }

    /// Allocates `size` bytes aligned to `align` and returns the payload address. The
    /// block found for the request is cut: an unaligned head and a large enough tail
    /// go back to the index as free blocks. Fails exactly when no free block reaches
    /// the search size rounded up to its class.
    #[verifier::spinoff_prover]
    #[verifier::rlimit(80)]
    pub fn allocate(&mut self, size: usize, align: usize) -> (r: Result<usize, AllocError>)
        requires
            old(self).wf(),
            is_pow2(align),
        ensures
            allocated(*old(self), size, align, r, *final(self)),
    {
        let ghost s0 = *self;
        let ghost m_in = self.mem@;
        let ghost live = self.live@;
        let ghost ranges = self.ranges@;
        let ghost ro = self.range_of@;
        let sizes = request_sizes(size, align);
        let (bsize, search) = match sizes {
            None => {
                proof {
                    if can_serve(m_in, size, align) {
                        let a = choose|a: usize|
                            #[trigger] is_free_block(m_in, a) && m_in[a].cap() >= up_size(
                                search_size(size, align),
                            );
                        crate::size_class::lemma_class_of_bounds(search_size(size, align));
                    }
                }
                return Err(AllocError::NoMemory);
            },
            Some(p) => p,
        };
        proof {
            crate::size_class::lemma_class_of_bounds(search as int);
        }
        let found = self.head.find_block(&mut self.mem, search);
        let x = match found {
            None => {
                proof {
                    if can_serve(m_in, size, align) {
                        let a = choose|a: usize|
                            #[trigger] is_free_block(m_in, a) && m_in[a].cap() >= up_size(
                                search_size(size, align),
                            );
                        assert(m_in.contains_key(a));
                        assert(block_ok(m_in, ranges, ro, a));
                        assert(0 <= ranges[ro[a]].0 <= ranges[ro[a]].1 <= usize::MAX);
                        crate::size_class::lemma_class_of_bounds(m_in[a].cap());
                        assert(s0.head.lists@[class_of(m_in[a].cap())].contains(a));
                    }
                }
                return Err(AllocError::NoMemory);
            },
            Some(x) => x,
        };
        let ghost m0 = self.mem@;
        proof {
            lemma_phys_frame(m_in, m0, ranges, ro);
            lemma_sums_frame(m_in, m0, live);
            let cx = choose|c: int| 0 <= c < CLASS_COUNT && #[trigger] s0.head.lists@[c].contains(x);
            assert(crate::controller::list_ok(m_in, s0.head.lists@[cx], s0.head.blocks@[cx], cx));
            let k = choose|k: int| 0 <= k < s0.head.lists@[cx].len() && s0.head.lists@[cx][k] == x;
            assert(crate::controller::node_ok(m_in, s0.head.lists@[cx], cx, k));
            assert(m0.contains_key(x));
            assert(same_phys_fields(m0[x], m_in[x]));
            assert(is_free_block(m_in, x));
            assert(can_serve(m_in, size, align));
            lemma_next_facts(m_in, ranges, ro, x);
            assert(!live.contains_key((x + HEADER_SIZE) as usize)) by {
                if live.contains_key((x + HEADER_SIZE) as usize) {
                    assert(alloc_ok(m_in, live, (x + HEADER_SIZE) as usize));
                }
            }
            assert forall|z: usize|
                #[trigger] m0.contains_key(z) && m0[z].free() && !m0[z].null() && z != x
                    implies self.head.lists@[class_of(m0[z].cap())].contains(z) by {
                assert(same_phys_fields(m0[z], m_in[z]));
                assert(block_ok(m_in, ranges, ro, z));
                assert(0 <= ranges[ro[z]].0 <= ranges[ro[z]].1 <= usize::MAX);
                crate::size_class::lemma_class_of_bounds(m0[z].cap());
                assert(s0.head.lists@[class_of(m_in[z].cap())].contains(z));
            }
            assert forall|z: usize| m0.contains_key(z) && z != x implies #[trigger] used_has_alloc(m0, live, z) by {
                assert(same_phys_fields(m0[z], m_in[z]));
                assert(used_has_alloc(m_in, live, z));
            }
            assert forall|p: usize| live.contains_key(p) implies #[trigger] alloc_ok(m0, live, p) by {
                assert(alloc_ok(m_in, live, p));
                let b = (p - HEADER_SIZE) as usize;
                assert(m0.contains_key(b));
                assert(same_phys_fields(m0[b], m_in[b]));
            }
            assert(!self.head.listed(x));
            assert(x % 8 == 0) by {
                assert(block_ok(m0, ranges, ro, x));
            }
            if align <= WORD_SIZE {
                lemma_small_align(align);
            }
        }
        let hx = *self.mem.get(&x).unwrap();
        let nsize = hx.get_size();
        proof {
            assert forall|a: usize| #[trigger] free_apart(m0, a) by {
                lemma_apart_frame(m_in, m0, a);
            }
            assert(free_apart(m0, x));
            assert(block_ok(m0, ranges, ro, x));
            if m0[x].prev_phy is Some {
                let q = m0[x].prev_phy.unwrap();
                assert(free_apart(m0, q));
            }
            assert(!prev_is_free(m0, x));
            assert(self.mid_ok(x, nsize as int));
        }
        let (blk, bcap, addr) = if align > WORD_SIZE {
            self.cut_head(x, nsize, align, bsize, search)
        } else {
            (x, nsize, x + HEADER_SIZE)
        };
        let ghost m_mid = self.mem@;
        self.finish_alloc(blk, bcap, bsize, size, align, addr);
        proof {
            let m1 = self.mem@;
            assert forall|k: usize| #[trigger] m_in.contains_key(k) && k != x implies m1.contains_key(k) && m1[k].cap() == m_in[k].cap()
                && m1[k].free() == m_in[k].free() && m1[k].null() == m_in[k].null() by {
                assert(m0.contains_key(k));
                assert(same_phys_fields(m0[k], m_in[k]));
                assert(m_mid.contains_key(k) && m_mid[k].cap() == m0[k].cap() && m_mid[k].free()
                    == m0[k].free() && m_mid[k].null() == m0[k].null());
                assert(k != blk);
                assert(m1.contains_key(k));
            }
            if blk != x {
                assert(m_mid.contains_key(x));
                assert(m1.contains_key(x));
            }
            assert(phy_next(m_in, x) == phy_next(m0, x));
            assert(first_fit(s0.head.lists@, class_of(up_size(search_size(size, align))), x));
            let b = (addr - HEADER_SIZE) as usize;
            assert(b == blk);
            if blk != x {
                assert(m_mid.contains_key(x) && x != blk);
                assert(m1[x].cap() == m_mid[x].cap());
                assert(phy_next(m1, x) == phy_next(m_mid, x));
            }
            assert(b == x || (is_free_block(m1, x) && phy_next(m1, x) == b));
            assert(phy_next(m_mid, blk) == phy_next(m_in, x));
            assert(phy_next(m1, b) != phy_next(m_in, x) ==> next_is_free(m1, b));
            assert(same_state_except(m_in, m1, x));
            assert(first_fit(s0.free_lists(), class_of(up_size(search_size(size, align))), x));
        }
        Ok(addr)
    }

    /// Writes the headers that grow the block at `a` over its physical successor.
    #[verifier::spinoff_prover]
    fn merge_mem(mem: &mut HashMap<usize, BlockHeader>, a: usize)
        requires
            old(mem)@.contains_key(a),
            !old(mem)@[a].null(),
            old(mem)@.contains_key(phy_next(old(mem)@, a)),
            !old(mem)@[phy_next(old(mem)@, a)].null(),
            a + HEADER_SIZE + old(mem)@[a].cap() + HEADER_SIZE + old(mem)@[phy_next(old(mem)@, a)].cap() <= usize::MAX,
            old(mem)@.contains_key(phy_next(old(mem)@, phy_next(old(mem)@, a))),
        ensures
            merge_rel(old(mem)@, final(mem)@, a),
    {
        let ghost m0 = mem@;
        let ha = *mem.get(&a).unwrap();
        let size = ha.get_size();
        let n = a + HEADER_SIZE + size;
        let hn = *mem.get(&n).unwrap();
        let nsize = hn.get_size();
        let nn = n + HEADER_SIZE + nsize;
        let mut ha2 = ha;
        ha2.set_size(size + nsize + HEADER_SIZE);
        mem.insert(a, ha2);
        mem.remove(&n);
        let hnn = *mem.get(&nn).unwrap();
        if !hnn.is_null() {
            let mut hnn2 = hnn;
            hnn2.prev_phy = Some(a);
            mem.insert(nn, hnn2);
        }
        proof {
            assert(mem@.dom() =~= m0.dom().remove(n));
        }
    }

    /// The invariant while the free block `blk` waits to be merged and indexed: it is
    /// out of the index but counted as available; all else is as in `wf`.
    pub closed spec fn free_mid_ok(&self, blk: usize) -> bool {
        self.free_mid_gap(blk, 0)
    }

    /// As `free_mid_ok`, with `gap` bytes of free blocks not yet counted as available.
    pub closed spec fn free_mid_gap(&self, blk: usize, gap: int) -> bool {
        let m = self.mem@;
        let live = self.live@;
        &&& phys_ok(m, self.ranges@, self.range_of@)
        &&& self.head.wf(m)
        &&& forall|z: usize|
            #[trigger] m.contains_key(z) && m[z].free() && !m[z].null() && z != blk
                ==> self.head.lists@[class_of(m[z].cap())].contains(z)
        &&& forall|z: usize| m.contains_key(z) ==> #[trigger] used_has_alloc(m, live, z)
        &&& forall|p: usize| live.contains_key(p) ==> #[trigger] alloc_ok(m, live, p)
        &&& forall|a: usize| a != blk && phy_next(m, a) != blk ==> #[trigger] free_apart(m, a)
        &&& is_free_block(m, phy_next(m, blk)) ==> !is_free_block(m, phy_next(m, phy_next(m, blk)))
        &&& prev_guard(m, blk)
        &&& is_free_block(m, blk)
        &&& !self.head.listed(blk)
        &&& self.total_mem == set_sum(m.dom(), total_weight(m))
        &&& self.used_mem == set_sum(m.dom(), used_weight(m, live))
        &&& self.avail_mem + gap == set_sum(m.dom(), free_weight(m))
    }

    /// As `free_mid_ok`, with the free physical successor of `blk` out of the index too.
    pub closed spec fn pair_ok(&self, blk: usize) -> bool {
        let m = self.mem@;
        let live = self.live@;
        let n = phy_next(m, blk);
        &&& phys_ok(m, self.ranges@, self.range_of@)
        &&& self.head.wf(m)
        &&& forall|z: usize|
            #[trigger] m.contains_key(z) && m[z].free() && !m[z].null() && z != blk && z != n
                ==> self.head.lists@[class_of(m[z].cap())].contains(z)
        &&& forall|z: usize| m.contains_key(z) ==> #[trigger] used_has_alloc(m, live, z)
        &&& forall|p: usize| live.contains_key(p) ==> #[trigger] alloc_ok(m, live, p)
        &&& forall|a: usize|
            a != blk && a != n && phy_next(m, a) != blk && phy_next(m, a) != n
                ==> #[trigger] free_apart(m, a)
        &&& !is_free_block(m, phy_next(m, n))
        &&& prev_guard(m, blk)
        &&& is_free_block(m, blk)
        &&& is_free_block(m, n)
        &&& !self.head.listed(blk)
        &&& !self.head.listed(n)
        &&& self.total_mem == set_sum(m.dom(), total_weight(m))
        &&& self.used_mem == set_sum(m.dom(), used_weight(m, live))
        &&& self.avail_mem == set_sum(m.dom(), free_weight(m))
    }

    /// Merges the free block at `block` with its free physical successor (both out
    /// of the index): `block` grows by the successor and its header. The byte
    /// counters are left as they are; the caller counts the freed header.
    #[verifier::spinoff_prover]
    pub fn merge_block(&mut self, block: usize)
        requires
            old(self).pair_ok(block),
        ensures
            final(self).free_mid_gap(block, HEADER_SIZE as int),
            merge_rel(old(self).blocks(), final(self).blocks(), block),
            final(self).live() == old(self).live(),
            final(self).ranges() == old(self).ranges(),
            final(self).total_spec() == old(self).total_spec(),
            final(self).used_spec() == old(self).used_spec(),
            final(self).avail_spec() == old(self).avail_spec(),
            !is_free_block(final(self).blocks(), phy_next(final(self).blocks(), block)),
            (old(self).blocks()[block].prev_phy matches Some(q) ==> !is_free_block(old(self).blocks(), q))
                ==> (final(self).blocks()[block].prev_phy matches Some(q) ==> !is_free_block(final(self).blocks(), q)),
            used_kept(old(self).blocks(), final(self).blocks()),
    {
        let ghost m0 = self.mem@;
        let ghost live = self.live@;
        let ghost ranges = self.ranges@;
        let ghost ro = self.range_of@;
        let ghost n = phy_next(m0, block);
        proof {
            lemma_next_facts(m0, ranges, ro, block);
            lemma_next_facts(m0, ranges, ro, n);
            assert(block_ok(m0, ranges, ro, n));
            assert(block_ok(m0, ranges, ro, block));
            assert(m0[n].prev_phy == Some(block));
        }
        Self::merge_mem(&mut self.mem, block);
        let ghost m1 = self.mem@;
        proof {
            lemma_merge(m0, m1, ranges, ro, block);
            lemma_sums_merge(m0, m1, ranges, ro, live, block);
            lemma_apart_merge(m0, m1, ranges, ro, block);
            let nn = phy_next(m0, n);
            assert(block_ok(m0, ranges, ro, nn));
            assert(phy_next(m1, block) == nn);
            assert(m1[nn].size == m0[nn].size);
            if m0[block].prev_phy is Some {
                let q = m0[block].prev_phy.unwrap();
                assert(block_ok(m0, ranges, ro, q));
                assert(q != nn && q != n);
                assert(m1[q] == m0[q]);
                if m0[q].prev_phy is Some {
                    let qq = m0[q].prev_phy.unwrap();
                    assert(block_ok(m0, ranges, ro, qq));
                    assert(qq != nn && qq != n && qq != block);
                    assert(m1[qq] == m0[qq]);
                }
            }
            assert forall|z: usize| #[trigger] self.head.listed(z) implies m1.contains_key(z)
                && crate::controller::same_list_view(m0[z], m1[z]) by {
                let c = choose|c: int| 0 <= c < CLASS_COUNT && #[trigger] self.head.lists@[c].contains(z);
                assert(crate::controller::list_ok(m0, self.head.lists@[c], self.head.blocks@[c], c));
                let k = choose|k: int| 0 <= k < self.head.lists@[c].len() && self.head.lists@[c][k] == z;
                assert(crate::controller::node_ok(m0, self.head.lists@[c], c, k));
            }
            self.head.lemma_wf_frame(m0, m1);
            assert forall|z: usize|
                #[trigger] m1.contains_key(z) && m1[z].free() && !m1[z].null() && z != block
                    implies self.head.lists@[class_of(m1[z].cap())].contains(z) by {
                assert(m0.contains_key(z));
            }
            assert forall|z: usize| m1.contains_key(z) implies #[trigger] used_has_alloc(m1, live, z) by {
                assert(used_has_alloc(m0, live, z));
            }
            assert forall|p: usize| live.contains_key(p) implies #[trigger] alloc_ok(m1, live, p) by {
                assert(alloc_ok(m0, live, p));
                let b = (p - HEADER_SIZE) as usize;
                assert(b != n && b != block);
            }
        }
        self.range_of = Ghost(ro.remove(n));
    }

    /// Counts the header freed by a merge into `blk` as available.
    #[verifier::spinoff_prover]
    fn count_merged_header(&mut self, blk: usize)
        requires
            old(self).free_mid_gap(blk, HEADER_SIZE as int),
        ensures
            final(self).free_mid_ok(blk),
            final(self).blocks() == old(self).blocks(),
            final(self).live() == old(self).live(),
            final(self).ranges() == old(self).ranges(),
            final(self).total_spec() == old(self).total_spec(),
            final(self).used_spec() == old(self).used_spec(),
            final(self).avail_spec() == old(self).avail_spec() + HEADER_SIZE,
    {
        proof {
            lemma_accounting(self.mem@, self.ranges@, self.range_of@, self.live@);
        }
        self.avail_mem = self.avail_mem + HEADER_SIZE;
    }

    /// Takes the free successor of `blk` out of the index, ready to be merged.
    #[verifier::spinoff_prover]
    fn unlink_next(&mut self, blk: usize)
        requires
            old(self).free_mid_ok(blk),
            is_free_block(old(self).blocks(), phy_next(old(self).blocks(), blk)),
        ensures
            final(self).pair_ok(blk),
            final(self).blocks().dom() == old(self).blocks().dom(),
            forall|k: usize| #[trigger] final(self).blocks().contains_key(k) ==> same_phys_fields(final(self).blocks()[k], old(self).blocks()[k]),
            final(self).live() == old(self).live(),
            final(self).ranges() == old(self).ranges(),
            final(self).total_spec() == old(self).total_spec(),
            final(self).used_spec() == old(self).used_spec(),
            final(self).avail_spec() == old(self).avail_spec(),
            used_kept(old(self).blocks(), final(self).blocks()),
    {
        let ghost m0 = self.mem@;
        let ghost live = self.live@;
        let ghost ranges = self.ranges@;
        let ghost ro = self.range_of@;
        let ghost head0 = self.head;
        let hb = *self.mem.get(&blk).unwrap();
        proof {
            lemma_next_facts(m0, ranges, ro, blk);
        }
        let n = blk + HEADER_SIZE + hb.get_size();
        proof {
            lemma_next_facts(m0, ranges, ro, n);
            assert(block_ok(m0, ranges, ro, n));
            crate::size_class::lemma_class_of_bounds(m0[n].cap());
            assert(head0.lists@[class_of(m0[n].cap())].contains(n));
        }
        self.head.del_into_list(&mut self.mem, n);
        let ghost m1 = self.mem@;
        proof {
            lemma_phys_frame(m0, m1, ranges, ro);
            lemma_sums_frame(m0, m1, live);
            assert forall|z: usize|
                #[trigger] m1.contains_key(z) && m1[z].free() && !m1[z].null() && z != blk && z != phy_next(m1, blk)
                    implies self.head.lists@[class_of(m1[z].cap())].contains(z) by {
                assert(same_phys_fields(m1[z], m0[z]));
                assert(m1.contains_key(blk));
                assert(same_phys_fields(m1[blk], m0[blk]));
                assert(head0.lists@[class_of(m0[z].cap())].contains(z));
                assert(block_ok(m0, ranges, ro, z));
                assert(0 <= ranges[ro[z]].0 <= ranges[ro[z]].1 <= usize::MAX);
                crate::size_class::lemma_class_of_bounds(m0[z].cap());
            }
            assert forall|z: usize| m1.contains_key(z) implies #[trigger] used_has_alloc(m1, live, z) by {
                assert(same_phys_fields(m1[z], m0[z]));
                assert(used_has_alloc(m0, live, z));
            }
            assert forall|p: usize| live.contains_key(p) implies #[trigger] alloc_ok(m1, live, p) by {
                assert(alloc_ok(m0, live, p));
                let b = (p - HEADER_SIZE) as usize;
                assert(m1.contains_key(b));
                assert(same_phys_fields(m1[b], m0[b]));
            }
            assert(m1.contains_key(blk) && m1.contains_key(n));
            assert(same_phys_fields(m1[blk], m0[blk]) && same_phys_fields(m1[n], m0[n]));
            assert(!self.head.listed(blk)) by {
                if self.head.listed(blk) {
                    let c = choose|c: int| 0 <= c < CLASS_COUNT && #[trigger] self.head.lists@[c].contains(blk);
                    assert(head0.lists@[c].contains(blk));
                }
            }
            assert(!self.head.listed(n)) by {
                if self.head.listed(n) {
                    let c = choose|c: int| 0 <= c < CLASS_COUNT && #[trigger] self.head.lists@[c].contains(n);
                }
            }
            assert(phy_next(m1, blk) == n);
            let nn = phy_next(m0, n);
            assert(block_ok(m0, ranges, ro, nn));
            assert(m1.contains_key(nn));
            assert(same_phys_fields(m1[nn], m0[nn]));
            assert(phy_next(m1, n) == nn);
            assert(block_ok(m0, ranges, ro, blk));
            if m0[blk].prev_phy is Some {
                let q = m0[blk].prev_phy.unwrap();
                assert(m0.contains_key(q));
                assert(block_ok(m0, ranges, ro, q));
                assert(m1.contains_key(q));
                assert(same_phys_fields(m1[q], m0[q]));
                if m0[q].prev_phy is Some {
                    let qq = m0[q].prev_phy.unwrap();
                    assert(block_ok(m0, ranges, ro, qq));
                    assert(m1.contains_key(qq));
                    assert(same_phys_fields(m1[qq], m0[qq]));
                }
            }
            assert forall|a: usize|
                a != blk && a != n && phy_next(m1, a) != blk && phy_next(m1, a) != n implies #[trigger] free_apart(m1, a) by {
                lemma_apart_frame(m0, m1, a);
                if m0.contains_key(a) {
                    assert(m1.contains_key(a));
                    assert(same_phys_fields(m1[a], m0[a]));
                }
            }
        }
    }

    /// Takes the free predecessor `p` of `blk` out of the index, ready to be merged.
    #[verifier::spinoff_prover]
    fn unlink_prev(&mut self, blk: usize, p: usize)
        requires
            old(self).free_mid_ok(blk),
            old(self).blocks()[blk].prev_phy == Some(p),
            old(self).blocks()[p].free(),
            !is_free_block(old(self).blocks(), phy_next(old(self).blocks(), blk)),
        ensures
            final(self).pair_ok(p),
            final(self).blocks()[p].prev_phy matches Some(q) ==> !is_free_block(final(self).blocks(), q),
            phy_next(final(self).blocks(), p) == blk,
            final(self).blocks().dom() == old(self).blocks().dom(),
            forall|k: usize| #[trigger] final(self).blocks().contains_key(k) ==> same_phys_fields(final(self).blocks()[k], old(self).blocks()[k]),
            final(self).live() == old(self).live(),
            final(self).ranges() == old(self).ranges(),
            final(self).total_spec() == old(self).total_spec(),
            final(self).used_spec() == old(self).used_spec(),
            final(self).avail_spec() == old(self).avail_spec(),
            used_kept(old(self).blocks(), final(self).blocks()),
    {
        let ghost m0 = self.mem@;
        let ghost live = self.live@;
        let ghost ranges = self.ranges@;
        let ghost ro = self.range_of@;
        let ghost head0 = self.head;
        proof {
            assert(block_ok(m0, ranges, ro, blk));
            assert(block_ok(m0, ranges, ro, p));
            assert(0 <= ranges[ro[p]].0 <= ranges[ro[p]].1 <= usize::MAX);
            crate::size_class::lemma_class_of_bounds(m0[p].cap());
            assert(head0.lists@[class_of(m0[p].cap())].contains(p));
        }
        self.head.del_into_list(&mut self.mem, p);
        let ghost m1 = self.mem@;
        proof {
            lemma_phys_frame(m0, m1, ranges, ro);
            lemma_sums_frame(m0, m1, live);
            assert(m1.contains_key(blk) && m1.contains_key(p));
            assert(same_phys_fields(m1[blk], m0[blk]) && same_phys_fields(m1[p], m0[p]));
            assert forall|z: usize|
                #[trigger] m1.contains_key(z) && m1[z].free() && !m1[z].null() && z != p && z != phy_next(m1, p)
                    implies self.head.lists@[class_of(m1[z].cap())].contains(z) by {
                assert(same_phys_fields(m1[z], m0[z]));
                assert(head0.lists@[class_of(m0[z].cap())].contains(z));
                assert(block_ok(m0, ranges, ro, z));
                assert(0 <= ranges[ro[z]].0 <= ranges[ro[z]].1 <= usize::MAX);
                crate::size_class::lemma_class_of_bounds(m0[z].cap());
            }
            assert forall|z: usize| m1.contains_key(z) implies #[trigger] used_has_alloc(m1, live, z) by {
                assert(same_phys_fields(m1[z], m0[z]));
                assert(used_has_alloc(m0, live, z));
            }
            assert forall|q: usize| live.contains_key(q) implies #[trigger] alloc_ok(m1, live, q) by {
                assert(alloc_ok(m0, live, q));
                let b = (q - HEADER_SIZE) as usize;
                assert(m1.contains_key(b));
                assert(same_phys_fields(m1[b], m0[b]));
            }
            assert(!self.head.listed(blk)) by {
                if self.head.listed(blk) {
                    let c = choose|c: int| 0 <= c < CLASS_COUNT && #[trigger] self.head.lists@[c].contains(blk);
                    assert(head0.lists@[c].contains(blk));
                }
            }
            assert(!self.head.listed(p)) by {
                if self.head.listed(p) {
                    let c = choose|c: int| 0 <= c < CLASS_COUNT && #[trigger] self.head.lists@[c].contains(p);
                }
            }
            assert(phy_next(m1, p) == blk);
            let sb = phy_next(m0, blk);
            assert(block_ok(m0, ranges, ro, sb));
            assert(m1.contains_key(sb));
            assert(same_phys_fields(m1[sb], m0[sb]));
            if m0[p].prev_phy is Some {
                let q = m0[p].prev_phy.unwrap();
                assert(m1.contains_key(q));
                assert(same_phys_fields(m1[q], m0[q]));
            }
            assert forall|a: usize|
                a != p && a != blk && phy_next(m1, a) != p && phy_next(m1, a) != blk implies #[trigger] free_apart(m1, a) by {
                lemma_apart_frame(m0, m1, a);
                if m0.contains_key(a) {
                    assert(m1.contains_key(a));
                    assert(same_phys_fields(m1[a], m0[a]));
                }
            }
        }
    }

    /// Puts the merged free block `blk` back into the index.
    #[verifier::spinoff_prover]
    fn index_freed(&mut self, blk: usize)
        requires
            old(self).free_mid_ok(blk),
            !is_free_block(old(self).blocks(), phy_next(old(self).blocks(), blk)),
            old(self).blocks()[blk].prev_phy matches Some(p) ==> !is_free_block(old(self).blocks(), p),
        ensures
            final(self).wf(),
            final(self).blocks().dom() == old(self).blocks().dom(),
            forall|k: usize| #[trigger] final(self).blocks().contains_key(k) ==> same_phys_fields(final(self).blocks()[k], old(self).blocks()[k]),
            final(self).live() == old(self).live(),
            final(self).controller_area() == old(self).controller_area(),
            final(self).ranges() == old(self).ranges(),
            final(self).total_spec() == old(self).total_spec(),
            final(self).used_spec() == old(self).used_spec(),
            final(self).avail_spec() == old(self).avail_spec(),
            used_kept(old(self).blocks(), final(self).blocks()),
    {
        let ghost m0 = self.mem@;
        let ghost live = self.live@;
        let ghost ranges = self.ranges@;
        let ghost ro = self.range_of@;
        let ghost head0 = self.head;
        proof {
            assert(block_ok(m0, ranges, ro, blk));
            assert(0 <= ranges[ro[blk]].0 <= ranges[ro[blk]].1 <= usize::MAX);
        }
        self.head.add_into_list(&mut self.mem, blk);
        let ghost m1 = self.mem@;
        proof {
            lemma_phys_frame(m0, m1, ranges, ro);
            lemma_sums_frame(m0, m1, live);
            crate::size_class::lemma_class_of_bounds(m0[blk].cap());
            assert forall|z: usize| #[trigger]
                m1.contains_key(z) && m1[z].free() && !m1[z].null() implies self.head.lists@[class_of(
                m1[z].cap(),
            )].contains(z) by {
                assert(same_phys_fields(m1[z], m0[z]));
                assert(block_ok(m0, ranges, ro, z));
                assert(0 <= ranges[ro[z]].0 <= ranges[ro[z]].1 <= usize::MAX);
                crate::size_class::lemma_class_of_bounds(m0[z].cap());
                if z != blk {
                    assert(head0.lists@[class_of(m0[z].cap())].contains(z));
                } else {
                    assert(self.head.lists@[class_of(m0[blk].cap())].contains(blk));
                }
            }
            assert forall|z: usize| m1.contains_key(z) implies #[trigger] used_has_alloc(m1, live, z) by {
                assert(same_phys_fields(m1[z], m0[z]));
                assert(used_has_alloc(m0, live, z));
            }
            assert forall|q: usize| live.contains_key(q) implies #[trigger] alloc_ok(m1, live, q) by {
                assert(alloc_ok(m0, live, q));
                let b = (q - HEADER_SIZE) as usize;
                assert(m1.contains_key(b));
                assert(same_phys_fields(m1[b], m0[b]));
            }
            assert(live_ok(m1, live));
            assert forall|a: usize| #[trigger] free_apart(m1, a) by {
                lemma_apart_frame(m0, m1, a);
                if a != blk && phy_next(m0, a) == blk && is_free_block(m0, a) {
                    assert(block_ok(m0, ranges, ro, a));
                    assert(block_ok(m0, ranges, ro, blk));
                }
            }
        }
    }

    /// Marks the block of the live allocation at `ptr` free and forgets the allocation.
    #[verifier::spinoff_prover]
    fn release(&mut self, ptr: usize, size: usize, align: usize) -> (block: usize)
        requires
            old(self).wf(),
            old(self).live().contains_key(ptr),
            old(self).live()[ptr] == (size, align),
        ensures
            block == ptr - HEADER_SIZE,
            final(self).free_mid_ok(block),
            flag_rel(old(self).blocks(), final(self).blocks(), block, true),
            final(self).live() == old(self).live().remove(ptr),
            final(self).ranges() == old(self).ranges(),
            final(self).total_spec() == old(self).total_spec(),
            final(self).used_spec() == old(self).used_spec() - size,
            final(self).avail_spec() == old(self).avail_spec() + old(self).blocks()[block].cap(),
            same_state_except(old(self).blocks(), final(self).blocks(), block),
    {
        let ghost m0 = self.mem@;
        let ghost live = self.live@;
        let ghost ranges = self.ranges@;
        let ghost ro = self.range_of@;
        let ghost live1 = live.remove(ptr);
        proof {
            assert(alloc_ok(m0, live, ptr));
        }
        let block = ptr - HEADER_SIZE;
        let hb = *self.mem.get(&block).unwrap();
        let cap = hb.get_size();
        proof {
            lemma_next_facts(m0, ranges, ro, block);
            assert(block_ok(m0, ranges, ro, block));
            assert forall|k: usize| m0.dom().contains(k) && k != block implies used_weight(m0, live)(k)
                == used_weight(m0, live1)(k) by {
                if !m0[k].null() && !m0[k].free() {
                    lemma_next_facts(m0, ranges, ro, k);
                }
            }
            lemma_set_sum_point(m0.dom(), used_weight(m0, live), used_weight(m0, live1), block);
        }
        Self::flag_mem(&mut self.mem, block, true);
        let ghost m1 = self.mem@;
        proof {
            lemma_flag(m0, m1, ranges, ro, block, true);
            lemma_sums_flag(m0, m1, ranges, ro, live1, block, true);
            lemma_apart_freed(m0, m1, block);
            let n = phy_next(m0, block);
            assert(phy_next(m1, block) == n);
            assert(free_apart(m0, n));
            if is_free_block(m0, n) {
                let nn = phy_next(m0, n);
                assert(block_ok(m0, ranges, ro, n));
                assert(block_ok(m0, ranges, ro, nn));
                assert(nn != block && nn != n);
                assert(phy_next(m1, n) == nn);
            }
            if m0[block].prev_phy is Some {
                let q = m0[block].prev_phy.unwrap();
                assert(block_ok(m0, ranges, ro, q));
                assert(q != n);
                if m0[q].prev_phy is Some {
                    let qq = m0[q].prev_phy.unwrap();
                    assert(block_ok(m0, ranges, ro, qq));
                    assert(free_apart(m0, qq));
                    assert(qq != n);
                }
            }
            assert forall|z: usize| #[trigger] self.head.listed(z) implies m1.contains_key(z)
                && crate::controller::same_list_view(m0[z], m1[z]) by {
                let c = choose|c: int| 0 <= c < CLASS_COUNT && #[trigger] self.head.lists@[c].contains(z);
                assert(crate::controller::list_ok(m0, self.head.lists@[c], self.head.blocks@[c], c));
                let k = choose|k: int| 0 <= k < self.head.lists@[c].len() && self.head.lists@[c][k] == z;
                assert(crate::controller::node_ok(m0, self.head.lists@[c], c, k));
            }
            self.head.lemma_wf_frame(m0, m1);
            assert(!self.head.listed(block)) by {
                if self.head.listed(block) {
                    let c = choose|c: int| 0 <= c < CLASS_COUNT && #[trigger] self.head.lists@[c].contains(block);
                    assert(crate::controller::list_ok(m0, self.head.lists@[c], self.head.blocks@[c], c));
                    let k = choose|k: int| 0 <= k < self.head.lists@[c].len() && self.head.lists@[c][k] == block;
                    assert(crate::controller::node_ok(m0, self.head.lists@[c], c, k));
                }
            }
            assert forall|z: usize|
                #[trigger] m1.contains_key(z) && m1[z].free() && !m1[z].null() && z != block
                    implies self.head.lists@[class_of(m1[z].cap())].contains(z) by {
                assert(m0.contains_key(z));
            }
            assert forall|z: usize| m1.contains_key(z) implies #[trigger] used_has_alloc(m1, live1, z) by {
                assert(used_has_alloc(m0, live, z));
                if z != block && !m1[z].null() && !m1[z].free() {
                    lemma_next_facts(m0, ranges, ro, z);
                }
            }
            assert forall|q: usize| live1.contains_key(q) implies #[trigger] alloc_ok(m1, live1, q) by {
                assert(alloc_ok(m0, live, q));
            }
            lemma_accounting(m1, ranges, ro, live1);
            assert forall|k: usize| m0.dom().contains(k) implies used_weight(m0, live)(k) >= 0 by {}
            crate::set_sum::lemma_set_sum_ge_elem(m0.dom(), used_weight(m0, live), block);
        }
        self.live = Ghost(live1);
        self.used_mem = self.used_mem - size;
        self.avail_mem = self.avail_mem + cap;
        block
    }

    /// Frees the allocation at `ptr`, made with this `size` and `align`, and merges its
    /// block with whichever physical neighbours are free.
    #[verifier::spinoff_prover]
    pub fn deallocate(&mut self, ptr: usize, size: usize, align: usize)
        requires
            old(self).wf(),
            old(self).live().contains_key(ptr),
            old(self).live()[ptr] == (size, align),
        ensures
            freed(*old(self), ptr, size, align, *final(self)),
    {
        let ghost m0 = self.mem@;
        let ghost ranges = self.ranges@;
        let ghost ro = self.range_of@;
        let block = self.release(ptr, size, align);
        let ghost m1 = self.mem@;
        proof {
            lemma_next_facts(m0, ranges, ro, block);
            assert(block_ok(m0, ranges, ro, block));
        }
        let hb = *self.mem.get(&block).unwrap();
        let pre = hb.prev_phy;
        let nxt = block + HEADER_SIZE + hb.get_size();
        let hn = *self.mem.get(&nxt).unwrap();
        proof {
            if pre is Some {
                let p = pre.unwrap();
                assert(block_ok(m0, ranges, ro, p));
                assert(p < block);
                assert(m1[p] == m0[p]);
            }
        }
        if !hn.is_null() && hn.get_now_free() {
            self.unlink_next(block);
            let ghost m2 = self.mem@;
            self.merge_block(block);
            self.count_merged_header(block);
            let ghost m3 = self.mem@;
            proof {
                assert(m2.contains_key(block) && m2.contains_key(nxt));
                assert(same_phys_fields(m2[block], m1[block]) && same_phys_fields(m2[nxt], m1[nxt]));
                if pre is Some {
                    let p = pre.unwrap();
                    assert(m2.contains_key(p));
                    assert(same_phys_fields(m2[p], m1[p]));
                    assert(block_ok(m0, ranges, ro, nxt));
                    assert(p != phy_next(m2, nxt));
                    assert(m3[p] == m2[p]);
                }
            }
        }
        let ghost m3 = self.mem@;
        let mut nblock = block;
        match pre {
            Some(p) => {
                let hp = *self.mem.get(&p).unwrap();
                if hp.get_now_free() {
                    self.unlink_prev(block, p);
                    let ghost m4 = self.mem@;
                    self.merge_block(p);
                    self.count_merged_header(p);
                    proof {
                        assert(m4.contains_key(block) && m4.contains_key(p));
                        assert(same_phys_fields(m4[block], m3[block]) && same_phys_fields(m4[p], m3[p]));
                    }
                    nblock = p;
                }
            },
            None => {},
        }
        let ghost m5 = self.mem@;
        self.index_freed(nblock);
        proof {
            assert(self.mem@.contains_key(nblock));
            assert(same_phys_fields(self.mem@[nblock], m5[nblock]));
        }
    }

    /// Registers one more range, disjoint from those already registered: it becomes
    /// one free block, closed by a null block, and joins the index. The controller
    /// stays where it is.
    pub fn add_memory(&mut self, start_addr: usize, heap_size: usize)
        requires
            old(self).wf(),
            start_addr % PAGE_SIZE == 0,
            heap_size % PAGE_SIZE == 0,
            heap_size > 0,
            heap_size <= MAX_BLOCK_SIZE,
            start_addr + heap_size <= usize::MAX,
            old(self).total_spec() + heap_size <= usize::MAX,
            forall|i: int|
                0 <= i < old(self).ranges().len() ==> start_addr + heap_size <= #[trigger] old(
                    self,
                ).ranges()[i].0 || old(self).ranges()[i].1 <= start_addr,
            old(self).controller_area() matches Some(c) ==> start_addr + heap_size <= c || c
                + CONTROLLER_SIZE <= start_addr,
        ensures
            final(self).wf(),
            final(self).ranges() == old(self).ranges().push((start_addr as int, start_addr + heap_size)),
            final(self).controller_area() == old(self).controller_area(),
            final(self).live() == old(self).live(),
            final(self).used_spec() == old(self).used_spec(),
            final(self).total_spec() == old(self).total_spec() + heap_size - NULL_BLOCK_SIZE - HEADER_SIZE,
            final(self).avail_spec() == old(self).avail_spec() + heap_size - NULL_BLOCK_SIZE - HEADER_SIZE,
            is_free_block(final(self).blocks(), start_addr),
            final(self).blocks()[start_addr].cap() == heap_size - NULL_BLOCK_SIZE - HEADER_SIZE,
            final(self).blocks().contains_key((start_addr + heap_size - NULL_BLOCK_SIZE) as usize),
            final(self).blocks()[(start_addr + heap_size - NULL_BLOCK_SIZE) as usize].null(),
    {
        let first = self.place_range(start_addr, heap_size);
        let ghost m1 = self.mem@;
        self.index_freed(first);
        proof {
            let last = (start_addr + heap_size - NULL_BLOCK_SIZE) as usize;
            assert(self.mem@.contains_key(first) && self.mem@.contains_key(last));
            assert(same_phys_fields(self.mem@[first], m1[first]));
            assert(same_phys_fields(self.mem@[last], m1[last]));
        }
    }

    /// Writes the headers of a fresh range and counts its bytes: one free block, not
    /// yet in the index, closed by a null block.
    #[verifier::spinoff_prover]
    #[verifier::rlimit(100)]
    fn place_range(&mut self, start_addr: usize, heap_size: usize) -> (first: usize)
        requires
            old(self).wf(),
            start_addr % PAGE_SIZE == 0,
            heap_size % PAGE_SIZE == 0,
            heap_size > 0,
            heap_size <= MAX_BLOCK_SIZE,
            start_addr + heap_size <= usize::MAX,
            old(self).total_spec() + heap_size <= usize::MAX,
            forall|i: int|
                0 <= i < old(self).ranges().len() ==> start_addr + heap_size <= #[trigger] old(
                    self,
                ).ranges()[i].0 || old(self).ranges()[i].1 <= start_addr,
            old(self).controller_area() matches Some(c) ==> start_addr + heap_size <= c || c
                + CONTROLLER_SIZE <= start_addr,
        ensures
            first == start_addr,
            final(self).free_mid_ok(first),
            final(self).blocks()[first].prev_phy is None,
            phy_next(final(self).blocks(), first) == (start_addr + heap_size - NULL_BLOCK_SIZE) as usize,
            final(self).blocks().contains_key((start_addr + heap_size - NULL_BLOCK_SIZE) as usize),
            final(self).blocks()[(start_addr + heap_size - NULL_BLOCK_SIZE) as usize].null(),
            final(self).blocks()[first].cap() == heap_size - NULL_BLOCK_SIZE - HEADER_SIZE,
            final(self).ranges() == old(self).ranges().push((start_addr as int, start_addr + heap_size)),
            final(self).controller_area() == old(self).controller_area(),
            final(self).live() == old(self).live(),
            final(self).used_spec() == old(self).used_spec(),
            final(self).total_spec() == old(self).total_spec() + heap_size - NULL_BLOCK_SIZE - HEADER_SIZE,
            final(self).avail_spec() == old(self).avail_spec() + heap_size - NULL_BLOCK_SIZE - HEADER_SIZE,
    {
        let ghost m0 = self.mem@;
        let ghost live = self.live@;
        let ghost ranges = self.ranges@;
        let ghost ro = self.range_of@;
        let ghost head0 = self.head;
        let first = start_addr;
        let last = start_addr + heap_size - NULL_BLOCK_SIZE;
        let cap = heap_size - NULL_BLOCK_SIZE - HEADER_SIZE;
        proof {
            assert(start_addr % 8 == 0 && heap_size % 8 == 0) by (nonlinear_arith)
                requires
                    start_addr % 4096 == 0,
                    heap_size % 4096 == 0,
            ;
            assert forall|i: int| 0 <= i < ranges.len() implies last + NULL_BLOCK_SIZE <= #[trigger] ranges[i].0 || ranges[i].1 <= first by {
                assert(start_addr + heap_size <= old(self).ranges()[i].0 || old(self).ranges()[i].1 <= start_addr);
            }
            lemma_outside_ranges(m0, ranges, ro, first as int, last + NULL_BLOCK_SIZE, first);
            lemma_outside_ranges(m0, ranges, ro, first as int, last + NULL_BLOCK_SIZE, last);
            lemma_accounting(m0, ranges, ro, live);
        }
        self.mem.insert(first, BlockHeader::new(None, cap, true, false));
        self.mem.insert(last, BlockHeader::new(None, 0, false, true));
        let ghost m1 = self.mem@;
        proof {
            assert(m1.dom() =~= m0.dom().insert(first).insert(last));
            lemma_add_range(m0, m1, ranges, ro, first, last);
            assert forall|z: usize| #[trigger] self.head.listed(z) implies m1.contains_key(z)
                && crate::controller::same_list_view(m0[z], m1[z]) by {
                let c = choose|c: int| 0 <= c < CLASS_COUNT && #[trigger] self.head.lists@[c].contains(z);
                assert(crate::controller::list_ok(m0, self.head.lists@[c], self.head.blocks@[c], c));
                let k = choose|k: int| 0 <= k < self.head.lists@[c].len() && self.head.lists@[c][k] == z;
                assert(crate::controller::node_ok(m0, self.head.lists@[c], c, k));
            }
            self.head.lemma_wf_frame(m0, m1);
            assert(!self.head.listed(first)) by {
                if self.head.listed(first) {
                    let c = choose|c: int| 0 <= c < CLASS_COUNT && #[trigger] self.head.lists@[c].contains(first);
                    assert(crate::controller::list_ok(m0, self.head.lists@[c], self.head.blocks@[c], c));
                    let k = choose|k: int| 0 <= k < self.head.lists@[c].len() && self.head.lists@[c][k] == first;
                    assert(crate::controller::node_ok(m0, self.head.lists@[c], c, k));
                }
            }
            lemma_sums_add(m0, m1, live, first, last);
            lemma_apart_add(m0, m1, ranges, ro, first, last);
            assert forall|z: usize|
                #[trigger] m1.contains_key(z) && m1[z].free() && !m1[z].null() && z != first
                    implies self.head.lists@[class_of(m1[z].cap())].contains(z) by {
                assert(m0.contains_key(z));
            }
            assert forall|z: usize| m1.contains_key(z) implies #[trigger] used_has_alloc(m1, live, z) by {
                if z != first && z != last {
                    assert(used_has_alloc(m0, live, z));
                }
            }
            assert forall|q: usize| live.contains_key(q) implies #[trigger] alloc_ok(m1, live, q) by {
                assert(alloc_ok(m0, live, q));
            }
            assert(phy_next(m1, first) == last);
        }
        self.ranges = Ghost(ranges.push((first as int, last + NULL_BLOCK_SIZE)));
        self.range_of = Ghost(ro.insert(first, ranges.len() as int).insert(last, ranges.len() as int));
        self.total_mem = self.total_mem + cap;
        self.avail_mem = self.avail_mem + cap;
        first
    }

    /// Whether freeing `ptr` with this `size` and `align` passes the checks made
    /// before a block is freed: a used block starts at `ptr - HEADER_SIZE` and is
    /// large enough for the request. Every live allocation passes with its own size
    /// and alignment; a freed one does not.
    pub fn can_deallocate(&self, ptr: usize, size: usize, align: usize) -> (r: bool)
        requires
            self.wf(),
        ensures
            self.live().contains_key(ptr) && self.live()[ptr] == (size, align) ==> r,
            r ==> {
                let b = (ptr - HEADER_SIZE) as usize;
                &&& ptr >= HEADER_SIZE
                &&& is_pow2(align)
                &&& self.blocks().contains_key(b)
                &&& !self.blocks()[b].free()
                &&& !self.blocks()[b].null()
                &&& self.blocks()[b].cap() >= min_block_size(size, align)
            },
    {
        proof {
            if self.live@.contains_key(ptr) {
                assert(alloc_ok(self.mem@, self.live@, ptr));
                let b = (ptr - HEADER_SIZE) as usize;
                assert(block_ok(self.mem@, self.ranges@, self.range_of@, b));
                assert(0 <= self.ranges@[self.range_of@[b]].0 <= self.ranges@[self.range_of@[b]].1 <= usize::MAX);
            }
        }
        if ptr < HEADER_SIZE {
            return false;
        }
        let b = ptr - HEADER_SIZE;
        let h = match self.mem.get(&b) {
            Some(h) => *h,
            None => {
                return false;
            },
        };
        if h.is_null() || h.get_now_free() {
            return false;
        }
        if align == 0 || my_lowbit(align) != align {
            return false;
        }
        match min_size(size, align) {
            None => false,
            Some(bs) => h.get_size() >= bs,
        }
    }
}

/// Every free block is in the free list of its class, so later requests can take it.
pub proof fn lemma_free_blocks_listed(h: Heap, a: usize)
    requires
        h.wf(),
        is_free_block(h.blocks(), a),
    ensures
        class_of(h.blocks()[a].cap()) < CLASS_COUNT,
        h.free_lists()[class_of(h.blocks()[a].cap())].contains(a),
{
    let m = h.mem@;
    assert(block_ok(m, h.ranges@, h.range_of@, a));
    assert(0 <= h.ranges@[h.range_of@[a]].0 <= h.ranges@[h.range_of@[a]].1 <= usize::MAX);
    crate::size_class::lemma_class_of_bounds(m[a].cap());
}

/// Two live allocations never overlap.
pub proof fn lemma_allocations_disjoint(h: Heap, p: usize, q: usize)
    requires
        h.wf(),
        h.live().contains_key(p),
        h.live().contains_key(q),
        p != q,
    ensures
        p + h.live()[p].0 <= q || q + h.live()[q].0 <= p,
{
    assert(alloc_ok(h.mem@, h.live@, p));
    assert(alloc_ok(h.mem@, h.live@, q));
    assert(blocks_apart(h.mem@, (p - HEADER_SIZE) as usize, (q - HEADER_SIZE) as usize));
}

/// A live allocation of `size` bytes lies in the payload of a used block, inside a
/// registered range.
pub proof fn lemma_allocation_fits(h: Heap, p: usize)
    requires
        h.wf(),
        h.live().contains_key(p),
    ensures
        ({
            let b = (p - HEADER_SIZE) as usize;
            &&& p >= HEADER_SIZE
            &&& h.blocks().contains_key(b)
            &&& !h.blocks()[b].free()
            &&& p + h.live()[p].0 <= b + HEADER_SIZE + h.blocks()[b].cap()
            &&& exists|i: int|
                0 <= i < h.ranges().len() && h.ranges()[i].0 <= p && b + HEADER_SIZE + h.blocks()[b].cap()
                    <= #[trigger] h.ranges()[i].1
        }),
{
    assert(alloc_ok(h.mem@, h.live@, p));
    let b = (p - HEADER_SIZE) as usize;
    assert(block_ok(h.mem@, h.ranges@, h.range_of@, b));
    let i = h.range_of@[b];
    assert(h.ranges()[i].0 <= p && b + HEADER_SIZE + h.blocks()[b].cap() <= h.ranges()[i].1);
}

/// What is in use and what is available never exceed the total; with no live
/// allocation nothing is in use and everything is available.
pub proof fn lemma_accounting_invariant(h: Heap)
    requires
        h.wf(),
    ensures
        h.used_spec() + h.avail_spec() <= h.total_spec(),
        h.live().is_empty() ==> h.used_spec() == 0,
        h.live().is_empty() ==> h.avail_spec() == h.total_spec(),
{
    let m = h.mem@;
    lemma_accounting(m, h.ranges@, h.range_of@, h.live@);
    if h.live@.is_empty() {
        assert forall|k: usize| m.dom().contains(k) implies used_weight(m, h.live@)(k) == 0 by {}
        crate::set_sum::lemma_set_sum_zero(m.dom(), used_weight(m, h.live@));
        assert forall|k: usize| m.dom().contains(k) implies free_weight(m)(k) == total_weight(m)(k) by {
            assert(used_has_alloc(m, h.live@, k));
            assert(block_ok(m, h.ranges@, h.range_of@, k));
            if !m[k].null() && m[k].prev_phy is Some {
                let p = m[k].prev_phy.unwrap();
                assert(used_has_alloc(m, h.live@, p));
                assert(free_apart(m, p));
            }
        }
        lemma_set_sum_frame(m.dom(), free_weight(m), total_weight(m));
    }
}

/// An allocation freed at once leaves the live allocations, the used bytes and the
/// available bytes as they were: every header that cutting the block added, merging
/// takes back.
pub proof fn lemma_alloc_free_round_trip(h0: Heap, h1: Heap, h2: Heap, size: usize, align: usize, addr: usize)
    requires
        allocated(h0, size, align, Ok(addr), h1),
        freed(h1, addr, size, align, h2),
    ensures
        h2.live() == h0.live(),
        h2.used_spec() == h0.used_spec(),
        h2.total_spec() == h0.total_spec(),
        h2.avail_spec() == h0.avail_spec(),
{
    assert(h2.live() =~= h0.live());
    let m = h1.mem@;
    let b = (addr - HEADER_SIZE) as usize;
    assert(h1.live@.contains_key(addr));
    assert(alloc_ok(m, h1.live@, addr));
    assert(block_ok(m, h1.ranges@, h1.range_of@, b));
}

/// After an allocation is freed it is no longer live, and no used block starts
/// where its header was: freeing it again is caught.
pub proof fn lemma_no_double_free(h0: Heap, h1: Heap, ptr: usize, size: usize, align: usize)
    requires
        h0.wf(),
        h0.live().contains_key(ptr),
        freed(h0, ptr, size, align, h1),
    ensures
        !h1.live().contains_key(ptr),
        !(h1.blocks().contains_key((ptr - HEADER_SIZE) as usize) && !h1.blocks()[(ptr
            - HEADER_SIZE) as usize].free()),
{
    assert(alloc_ok(h0.mem@, h0.live@, ptr));
}

/// Freeing an allocation and then the one whose block physically follows leaves
/// one free block that spans both blocks.
pub proof fn lemma_neighbours_coalesce(
    h0: Heap,
    h1: Heap,
    h2: Heap,
    pa: usize,
    sa: usize,
    aa: usize,
    pb: usize,
    sb: usize,
    ab: usize,
)
    requires
        h0.wf(),
        h0.live().contains_key(pa),
        h0.live().contains_key(pb),
        (pb - HEADER_SIZE) as usize == phy_next(h0.blocks(), (pa - HEADER_SIZE) as usize),
        freed(h0, pa, sa, aa, h1),
        freed(h1, pb, sb, ab, h2),
    ensures
        exists|s: usize|
            #[trigger] is_free_block(h2.blocks(), s) && s <= pa - HEADER_SIZE && pb + h1.blocks()[(pb
                - HEADER_SIZE) as usize].cap() <= s + HEADER_SIZE + h2.blocks()[s].cap(),
{
    let a = (pa - HEADER_SIZE) as usize;
    let b = (pb - HEADER_SIZE) as usize;
    let m0 = h0.mem@;
    let m1 = h1.mem@;
    assert(alloc_ok(m0, h0.live@, pa));
    assert(alloc_ok(m0, h0.live@, pb));
    lemma_next_facts(m0, h0.ranges@, h0.range_of@, a);
    assert(pa != pb);
    assert(block_ok(m0, h0.ranges@, h0.range_of@, a));
    let pm = m0[a].prev_phy is Some && m0[m0[a].prev_phy.unwrap()].free();
    let s1 = if pm { m0[a].prev_phy.unwrap() } else { a };
    if pm {
        assert(block_ok(m0, h0.ranges@, h0.range_of@, m0[a].prev_phy.unwrap()));
    }
    assert(!is_free_block(m0, b));
    assert(is_free_block(m1, s1));
    assert(h1.live@.contains_key(pb));
    assert(alloc_ok(m1, h1.live@, pb));
    assert(block_ok(m1, h1.ranges@, h1.range_of@, s1));
    assert(phy_next(m1, s1) == b);
    assert(m1[b].prev_phy == Some(s1));
    assert(is_free_block(h2.blocks(), s1));
}

} // verus!
