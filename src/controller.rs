//! The segregated free-list index: a first-level bitmap, one second-level bitmap
//! per first-level class, and a doubly linked free list per class whose links are
//! kept in the blocks' own headers.
use vstd::prelude::*;
use std::collections::HashMap;
use vstd::arithmetic::power2::pow2;
use crate::bits::my_lowbit;
use crate::bits::my_log2;
use crate::block::BlockHeader;
use crate::size_class::class_of;
use crate::size_class::get_fl_and_sl;
use crate::size_class::get_up_size;
use crate::size_class::up_size;
use crate::size_class::lemma_class_of_begin;
use crate::size_class::lemma_class_order;
use crate::size_class::CLASS_COUNT;
use crate::size_class::FL_INDEX_COUNT;
use crate::size_class::MAX_BLOCK_SIZE;
use crate::size_class::SL_INDEX_COUNT;

verus! {

broadcast use {
    vstd::std_specs::hash::axiom_usize_obeys_hash_table_key_model,
    vstd::std_specs::hash::axiom_random_state_builds_valid_hashers,
    vstd::std_specs::hash::axiom_hashmap_view_finite_dom,
    vstd::std_specs::hash::axiom_contains_deref_key,
    vstd::std_specs::hash::axiom_maps_deref_key_to_value,
};

/// Bit `i` of `w`.
pub open spec fn bit(w: u32, i: int) -> bool {
    (w >> (i as u32)) & 1 == 1
}

/// Entry `i` of free list `l` (of class `c`) is a free block of that class, linked
/// to its neighbours in the list.
pub open spec fn node_ok(mem: Map<usize, BlockHeader>, l: Seq<usize>, c: int, i: int) -> bool {
    let x = l[i];
    &&& mem.contains_key(x)
    &&& mem[x].free()
    &&& !mem[x].null()
    &&& mem[x].cap() < MAX_BLOCK_SIZE
    &&& class_of(mem[x].cap()) == c
    &&& mem[x].next_free == (if i + 1 < l.len() {
        Some(l[i + 1])
    } else {
        None
    })
    &&& mem[x].prev_free == (if i > 0 {
        Some(l[i - 1])
    } else {
        None
    })
}

/// Free list `l` of class `c` starts at `head` and is well linked in `mem`.
pub open spec fn list_ok(mem: Map<usize, BlockHeader>, l: Seq<usize>, head: Option<usize>, c: int) -> bool {
    &&& head == (if l.len() > 0 {
        Some(l[0])
    } else {
        None
    })
    &&& l.no_duplicates()
    &&& forall|i: int| 0 <= i < l.len() ==> #[trigger] node_ok(mem, l, c, i)
}

/// The fields that the free lists write are the only ones that differ.
pub open spec fn same_phys_fields(a: BlockHeader, b: BlockHeader) -> bool {
    a.size == b.size && a.prev_phy == b.prev_phy
}

proof fn lemma_bit_set(w: u32, i: u32, j: u32)
    by (bit_vector)
    requires
        i < 32,
        j < 32,
    ensures
        ((w | (1u32 << i)) >> j) & 1 == 1 <==> (i == j || (w >> j) & 1 == 1),
        (w | (1u32 << i)) != 0,
        w >> 28u32 == 0 && i < 28 ==> (w | (1u32 << i)) >> 28u32 == 0,
{
}

proof fn lemma_bit_clear(w: u32, i: u32, j: u32)
    by (bit_vector)
    requires
        i < 32,
        j < 32,
    ensures
        ((w & !(1u32 << i)) >> j) & 1 == 1 <==> (i != j && (w >> j) & 1 == 1),
        w >> 28u32 == 0 ==> (w & !(1u32 << i)) >> 28u32 == 0,
{
}

proof fn lemma_bit_masked(w: u32, s: u32, j: u32)
    by (bit_vector)
    requires
        s < 32,
        j < 32,
    ensures
        ((w & (0xffff_ffffu32 << s)) >> j) & 1 == 1 <==> (j >= s && (w >> j) & 1 == 1),
        ((w & (0xffff_ffffu32 << s)) >> j) & 1 == 1 ==> (w & (0xffff_ffffu32 << s)) != 0,
{
}

proof fn lemma_bit_zero(j: u32)
    by (bit_vector)
    requires
        j < 32,
    ensures
        (0u32 >> j) & 1 == 0,
{
}

proof fn lemma_bit_nonzero(w: u32, j: u32)
    by (bit_vector)
    requires
        j < 32,
        (w >> j) & 1 == 1,
    ensures
        w != 0,
{
}

proof fn lemma_bit_high(w: u32, j: u32)
    by (bit_vector)
    requires
        w >> 28u32 == 0,
        j < 32,
        (w >> j) & 1 == 1,
    ensures
        j < 28,
{
}

/// Index of the lowest set bit of a non-zero word.
pub fn ffs(w: u32) -> (j: u32)
    requires
        w != 0,
    ensures
        j < 32,
        bit(w, j as int),
        forall|i: int| 0 <= i < j ==> !#[trigger] bit(w, i),
{
    let r = my_lowbit(w as usize);
    let k = my_log2(r);
    let w64 = w as u64;
    let r64 = r as u64;
    let k64 = k as u64;
    proof {
        vstd::bits::lemma_u64_shr_is_div(r64, k64);
        vstd::arithmetic::power2::lemma_pow2_pos(k as nat);
        vstd::arithmetic::power2::lemma_pow2_unfold(k as nat + 1);
        vstd::arithmetic::div_mod::lemma_fundamental_div_mod(r as int, pow2(k as nat) as int);
        assert(r64 >> k64 == 1) by {
            let q = r as int / pow2(k as nat) as int;
            if q >= 2 {
                assert(q * pow2(k as nat) >= 2 * pow2(k as nat)) by (nonlinear_arith)
                    requires
                        q >= 2,
                        pow2(k as nat) > 0,
                ;
            }
            if q <= 0 {
                assert(q * pow2(k as nat) <= 0) by (nonlinear_arith)
                    requires
                        q <= 0,
                        pow2(k as nat) > 0,
                ;
            }
        }
    }
    assert(w64 >> 32u64 == 0) by (bit_vector)
        requires
            w64 == w as u64,
    ;
    assert((w64 >> k64) & 1 == 1 && k64 < 32) by (bit_vector)
        requires
            r64 != 0,
            r64 & ((r64 - 1) as u64) == 0,
            r64 >> k64 == 1,
            k64 < 64,
            w64 & r64 == r64,
            w64 >> 32u64 == 0,
    ;
    let j = k as u32;
    assert((w >> j) & 1 == 1) by (bit_vector)
        requires
            w64 == w as u64,
            (w64 >> (j as u64)) & 1 == 1,
            j < 32,
    ;
    assert(w64 & ((r64 - 1) as u64) == 0);
    assert forall|i: int| 0 <= i < j implies !#[trigger] bit(w, i) by {
        let iu = i as u32;
        assert((w >> iu) & 1 == 0) by (bit_vector)
            requires
                w64 == w as u64,
                r64 != 0,
                r64 & ((r64 - 1) as u64) == 0,
                r64 >> (j as u64) == 1,
                j < 32,
                iu < j,
                w64 & ((r64 - 1) as u64) == 0,
        ;
    }
    j
}

/// A list stays well linked when no header of its class changes.
proof fn lemma_list_frame(
    m0: Map<usize, BlockHeader>,
    m1: Map<usize, BlockHeader>,
    l: Seq<usize>,
    h: Option<usize>,
    c: int,
)
    requires
        list_ok(m0, l, h, c),
        forall|y: usize|
            #[trigger] m0.contains_key(y) && class_of(m0[y].cap()) == c ==> m1.contains_key(y)
                && m1[y] == m0[y],
    ensures
        list_ok(m1, l, h, c),
{
    assert forall|k: int| 0 <= k < l.len() implies #[trigger] node_ok(m1, l, c, k) by {
        assert(node_ok(m0, l, c, k));
    }
}

/// Unlinking entry `i` of a well-linked list leaves a well-linked list.
proof fn lemma_list_remove(
    m0: Map<usize, BlockHeader>,
    m1: Map<usize, BlockHeader>,
    l0: Seq<usize>,
    h0: Option<usize>,
    h1: Option<usize>,
    c: int,
    i: int,
)
    requires
        list_ok(m0, l0, h0, c),
        0 <= i < l0.len(),
        h1 == (if i == 0 { m0[l0[i]].next_free } else { h0 }),
        m1.dom() == m0.dom(),
        forall|y: usize|
            #[trigger] m1.contains_key(y) && y != l0[i] && (i == 0 || y != l0[i - 1]) && (i + 1
                >= l0.len() || y != l0[i + 1]) ==> m1[y] == m0[y],
        i > 0 ==> m1[l0[i - 1]] == (BlockHeader { next_free: m0[l0[i]].next_free, ..m0[l0[i - 1]] }),
        i + 1 < l0.len() ==> m1[l0[i + 1]] == (BlockHeader {
            prev_free: m0[l0[i]].prev_free,
            ..m0[l0[i + 1]]
        }),
    ensures
        list_ok(m1, l0.remove(i), h1, c),
{
    let l = l0.remove(i);
    let x = l0[i];
    assert(node_ok(m0, l0, c, i));
    assert forall|k: int| 0 <= k < l.len() implies #[trigger] node_ok(m1, l, c, k) by {
        if k < i {
            assert(node_ok(m0, l0, c, k));
            assert(l0[k] != x);
            if k + 1 < i {
                assert(l0[k] != l0[i - 1]);
            }
            if i + 1 < l0.len() {
                assert(l0[k] != l0[i + 1]);
            }
        } else {
            assert(node_ok(m0, l0, c, k + 1));
            assert(l0[k + 1] != x);
            if i > 0 {
                assert(l0[k + 1] != l0[i - 1]);
            }
            if k > i {
                assert(l0[k + 1] != l0[i + 1]);
            }
        }
    }
    assert(l.no_duplicates()) by {
        assert forall|a: int, b: int| 0 <= a < l.len() && 0 <= b < l.len() && a != b implies l[a]
            != l[b] by {
            let a0 = if a < i {
                a
            } else {
                a + 1
            };
            let b0 = if b < i {
                b
            } else {
                b + 1
            };
            assert(l[a] == l0[a0] && l[b] == l0[b0]);
        }
    }
    if i == 0 && l0.len() > 1 {
        assert(node_ok(m0, l0, c, 0));
    }
}

/// `x` heads the lowest non-empty free list of class `c0` or above.
pub open spec fn first_fit(lists: Seq<Seq<usize>>, c0: int, x: usize) -> bool {
    exists|c: int|
        c0 <= c < CLASS_COUNT && lists[c].len() > 0 && lists[c][0] == x && forall|c2: int|
            c0 <= c2 < c ==> #[trigger] lists[c2].len() == 0
}

/// The fields of a header that the free lists read.
pub open spec fn same_list_view(a: BlockHeader, b: BlockHeader) -> bool {
    &&& a.cap() == b.cap()
    &&& a.free() == b.free()
    &&& a.null() == b.null()
    &&& a.prev_free == b.prev_free
    &&& a.next_free == b.next_free
}

/// The index of free blocks. Each free list is doubly linked through the
/// `prev_free` / `next_free` fields of its members' headers; a list head and the
/// bitmap bits are kept in step, so that a class is empty exactly when its bit is
/// clear.
pub struct Controller {
    /// Bit `fl` is set when first-level class `fl` has a non-empty list.
    pub fl_bitmap: u32,
    /// Per first-level class: bit `sl` is set when list (`fl`, `sl`) is non-empty.
    pub sl_bitmap: Vec<u32>,
    /// Head of each free list, at index `fl * SL_INDEX_COUNT + sl`.
    pub blocks: Vec<Option<usize>>,
    /// The members of each free list, head first.
    pub lists: Ghost<Seq<Seq<usize>>>,
}

impl Controller {
    /// Some free list holds `x`.
    pub open spec fn listed(&self, x: usize) -> bool {
        exists|c: int| 0 <= c < CLASS_COUNT && #[trigger] self.lists@[c].contains(x)
    }

    /// The index agrees with itself and with the headers in `mem`.
    pub open spec fn wf(&self, mem: Map<usize, BlockHeader>) -> bool {
        &&& self.sl_bitmap@.len() == FL_INDEX_COUNT
        &&& self.blocks@.len() == CLASS_COUNT
        &&& self.lists@.len() == CLASS_COUNT
        &&& self.fl_bitmap >> 28u32 == 0
        &&& forall|fl: int|
            0 <= fl < FL_INDEX_COUNT ==> (bit(self.fl_bitmap, fl) <==> #[trigger] self.sl_bitmap@[fl]
                != 0)
        &&& forall|c: int|
            0 <= c < CLASS_COUNT ==> (bit(self.sl_bitmap@[c / 32], c % 32) <==> #[trigger] self.lists@[c].len()
                > 0)
        &&& forall|c: int|
            0 <= c < CLASS_COUNT ==> #[trigger] list_ok(mem, self.lists@[c], self.blocks@[c], c)
    }

    /// Every free block of `mem` other than the null blocks is in its class's list.
    pub open spec fn covers(&self, mem: Map<usize, BlockHeader>) -> bool {
        forall|x: usize|
            #[trigger] mem.contains_key(x) && mem[x].free() && !mem[x].null()
                ==> self.lists@[class_of(mem[x].cap())].contains(x)
    }

    /// An index with every list empty.
    pub fn new() -> (r: Self)
        ensures
            r.wf(Map::empty()),
            forall|c: int| 0 <= c < CLASS_COUNT ==> #[trigger] r.lists@[c].len() == 0,
    {
        let mut sl_bitmap: Vec<u32> = Vec::new();
        let mut i: usize = 0;
        while i < FL_INDEX_COUNT
            invariant
                i <= FL_INDEX_COUNT,
                sl_bitmap@.len() == i,
                forall|j: int| 0 <= j < i ==> sl_bitmap@[j] == 0,
            decreases FL_INDEX_COUNT - i,
        {
            sl_bitmap.push(0);
            i += 1;
        }
        let mut blocks: Vec<Option<usize>> = Vec::new();
        let mut i: usize = 0;
        while i < CLASS_COUNT
            invariant
                i <= CLASS_COUNT,
                blocks@.len() == i,
                forall|j: int| 0 <= j < i ==> blocks@[j] is None,
            decreases CLASS_COUNT - i,
        {
            blocks.push(None);
            i += 1;
        }
        let ghost lists = Seq::new(CLASS_COUNT as nat, |c: int| Seq::<usize>::empty());
        let r = Controller { fl_bitmap: 0, sl_bitmap, blocks, lists: Ghost(lists) };
        assert forall|c: int| 0 <= c < CLASS_COUNT implies (bit(r.sl_bitmap@[c / 32], c % 32)
            <==> #[trigger] r.lists@[c].len() > 0) by {
            let z: u32 = 0;
            let s = (c % 32) as u32;
            assert((z >> s) & 1 == 0) by (bit_vector)
                requires
                    z == 0,
            ;
        }
        assert forall|fl: int| 0 <= fl < FL_INDEX_COUNT implies (bit(r.fl_bitmap, fl)
            <==> #[trigger] r.sl_bitmap@[fl] != 0) by {
            let z: u32 = 0;
            let s = fl as u32;
            assert((z >> s) & 1 == 0) by (bit_vector)
                requires
                    z == 0,
            ;
        }
        assert(0u32 >> 28u32 == 0) by (bit_vector);
        assert forall|c: int| 0 <= c < CLASS_COUNT implies #[trigger] list_ok(
            Map::empty(),
            r.lists@[c],
            r.blocks@[c],
            c,
        ) by {
            assert(r.lists@[c].no_duplicates());
        }
        r
    }

    /// Puts free block `x` at the head of the list of its class.
    pub fn add_into_list(&mut self, mem: &mut HashMap<usize, BlockHeader>, x: usize)
        requires
            old(self).wf(old(mem)@),
            old(mem)@.contains_key(x),
            old(mem)@[x].free(),
            !old(mem)@[x].null(),
            old(mem)@[x].cap() < MAX_BLOCK_SIZE,
            !old(self).listed(x),
        ensures
            final(self).wf(final(mem)@),
            final(mem)@.dom() == old(mem)@.dom(),
            forall|y: usize| #[trigger]
                final(mem)@.contains_key(y) ==> same_phys_fields(final(mem)@[y], old(mem)@[y]),
            forall|c: int, y: usize|
                0 <= c < CLASS_COUNT ==> (#[trigger] final(self).lists@[c].contains(y) <==> (old(
                    self,
                ).lists@[c].contains(y) || (y == x && c == class_of(old(mem)@[x].cap())))),
    {
        let ghost m0 = mem@;
        let hx0 = *mem.get(&x).unwrap();
        let size = hx0.get_size();
        let (fl, sl) = get_fl_and_sl(size);
        let c = fl * SL_INDEX_COUNT + sl;
        let ghost l0 = self.lists@[c as int];
        let head = self.blocks[c];
        assert(list_ok(m0, l0, head, c as int));
        let mut hx = hx0;
        hx.prev_free = None;
        hx.next_free = head;
        mem.insert(x, hx);
        match head {
            Some(h) => {
                assert(node_ok(m0, l0, c as int, 0));
                let mut hh = *mem.get(&h).unwrap();
                hh.prev_free = Some(x);
                mem.insert(h, hh);
            },
            None => {},
        }
        self.blocks.set(c, Some(x));
        let old_sl = self.sl_bitmap[fl];
        let new_sl = old_sl | (1u32 << (sl as u32));
        self.sl_bitmap.set(fl, new_sl);
        let old_fl = self.fl_bitmap;
        self.fl_bitmap = old_fl | (1u32 << (fl as u32));
        let ghost l1 = seq![x].add(l0);
        self.lists = Ghost(self.lists@.update(c as int, l1));
        proof {
            let m1 = mem@;
            assert(!l0.contains(x));
            lemma_bit_set(old_fl, fl as u32, 0);
            assert forall|f: int| 0 <= f < FL_INDEX_COUNT implies (bit(self.fl_bitmap, f)
                <==> #[trigger] self.sl_bitmap@[f] != 0) by {
                lemma_bit_set(old_fl, fl as u32, f as u32);
                lemma_bit_set(old_sl, sl as u32, 0);
            }
            assert forall|c2: int| 0 <= c2 < CLASS_COUNT implies (bit(
                self.sl_bitmap@[c2 / 32],
                c2 % 32,
            ) <==> #[trigger] self.lists@[c2].len() > 0) by {
                lemma_bit_set(old_sl, sl as u32, (c2 % 32) as u32);
            }
            assert forall|c2: int| 0 <= c2 < CLASS_COUNT implies #[trigger] list_ok(
                m1,
                self.lists@[c2],
                self.blocks@[c2],
                c2,
            ) by {
                assert(list_ok(m0, old(self).lists@[c2], old(self).blocks@[c2], c2));
                let l = self.lists@[c2];
                if c2 == c {
                    assert forall|i: int| 0 <= i < l.len() implies #[trigger] node_ok(
                        m1,
                        l,
                        c2,
                        i,
                    ) by {
                        if i > 0 {
                            assert(node_ok(m0, l0, c2, i - 1));
                            if i > 1 {
                                assert(l0[i - 1] != l0[0]);
                            }
                        }
                    }
                    assert(l.no_duplicates()) by {
                        assert forall|i: int, j: int|
                            0 <= i < l.len() && 0 <= j < l.len() && i != j implies l[i]
                            != l[j] by {
                            if i == 0 && j > 0 {
                                assert(l0.contains(l[j]) ==> l[j] != x);
                                assert(l[j] == l0[j - 1]);
                            }
                            if j == 0 && i > 0 {
                                assert(l[i] == l0[i - 1]);
                            }
                        }
                    }
                } else {
                    assert forall|i: int| 0 <= i < l.len() implies #[trigger] node_ok(
                        m1,
                        l,
                        c2,
                        i,
                    ) by {
                        assert(node_ok(m0, l, c2, i));
                        assert(l[i] != x) by {
                            assert(l.contains(l[i]));
                            assert(old(self).lists@[c2].contains(l[i]));
                        }
                        if l0.len() > 0 {
                            assert(node_ok(m0, l0, c as int, 0));
                        }
                    }
                }
            }
            assert forall|c2: int, y: usize|
                0 <= c2 < CLASS_COUNT implies (#[trigger] self.lists@[c2].contains(y) <==> (old(
                self,
            ).lists@[c2].contains(y) || (y == x && c2 == class_of(m0[x].cap())))) by {
                if c2 == c {
                    if l1.contains(y) && y != x {
                        let i = choose|i: int| 0 <= i < l1.len() && l1[i] == y;
                        assert(l0[i - 1] == y);
                    }
                    if l0.contains(y) {
                        let i = choose|i: int| 0 <= i < l0.len() && l0[i] == y;
                        assert(l1[i + 1] == y);
                    }
                    assert(l1[0] == x);
                }
            }
        }
    }

    /// Unlinks listed block `x` from the list of its class.
    pub fn del_into_list(&mut self, mem: &mut HashMap<usize, BlockHeader>, x: usize)
        requires
            old(self).wf(old(mem)@),
            old(mem)@.contains_key(x),
            old(mem)@[x].cap() < MAX_BLOCK_SIZE,
            old(self).lists@[class_of(old(mem)@[x].cap())].contains(x),
        ensures
            final(self).wf(final(mem)@),
            final(mem)@.dom() == old(mem)@.dom(),
            forall|y: usize| #[trigger]
                final(mem)@.contains_key(y) ==> same_phys_fields(final(mem)@[y], old(mem)@[y]),
            forall|c: int, y: usize|
                0 <= c < CLASS_COUNT ==> (#[trigger] final(self).lists@[c].contains(y) <==> (old(
                    self,
                ).lists@[c].contains(y) && y != x)),
    {
        let ghost m0 = mem@;
        let hx0 = *mem.get(&x).unwrap();
        let size = hx0.get_size();
        let (fl, sl) = get_fl_and_sl(size);
        let c = fl * SL_INDEX_COUNT + sl;
        let ghost l0 = self.lists@[c as int];
        assert(list_ok(m0, l0, self.blocks@[c as int], c as int));
        let ghost i = choose|i: int| 0 <= i < l0.len() && l0[i] == x;
        assert(node_ok(m0, l0, c as int, i));
        let prev = hx0.prev_free;
        let next = hx0.next_free;
        let mut hx = hx0;
        hx.prev_free = None;
        hx.next_free = None;
        mem.insert(x, hx);
        match next {
            Some(n) => {
                assert(node_ok(m0, l0, c as int, i + 1));
                let mut hn = *mem.get(&n).unwrap();
                hn.prev_free = prev;
                mem.insert(n, hn);
            },
            None => {},
        }
        match prev {
            Some(p) => {
                assert(node_ok(m0, l0, c as int, i - 1));
                assert(i + 1 < l0.len() ==> l0[i - 1] != l0[i + 1]);
                let mut hp = *mem.get(&p).unwrap();
                hp.next_free = next;
                mem.insert(p, hp);
            },
            None => {
                self.blocks.set(c, next);
            },
        }
        let ghost l1 = l0.remove(i);
        self.lists = Ghost(self.lists@.update(c as int, l1));
        let old_sl = self.sl_bitmap[fl];
        let old_fl = self.fl_bitmap;
        if prev.is_none() && next.is_none() {
            let new_sl = old_sl & !(1u32 << (sl as u32));
            self.sl_bitmap.set(fl, new_sl);
            if new_sl == 0 {
                self.fl_bitmap = old_fl & !(1u32 << (fl as u32));
            }
        }
        proof {
            let m1 = mem@;
            assert(m1.dom() =~= m0.dom());
            assert(l1.len() == 0 <==> (prev.is_none() && next.is_none()));
            assert forall|f: int| 0 <= f < FL_INDEX_COUNT implies (bit(self.fl_bitmap, f)
                <==> #[trigger] self.sl_bitmap@[f] != 0) by {
                lemma_bit_clear(old_fl, fl as u32, f as u32);
                assert(old(self).sl_bitmap@[f] != 0 <==> bit(old_fl, f));
                if f == fl {
                    assert(bit(old_sl, sl as int));
                    lemma_bit_nonzero(old_sl, sl as u32);
                }
            }
            lemma_bit_clear(old_fl, fl as u32, 0);
            assert forall|c2: int| 0 <= c2 < CLASS_COUNT implies (bit(
                self.sl_bitmap@[c2 / 32],
                c2 % 32,
            ) <==> #[trigger] self.lists@[c2].len() > 0) by {
                lemma_bit_clear(old_sl, sl as u32, (c2 % 32) as u32);
            }
            if i > 0 {
                assert(node_ok(m0, l0, c as int, i - 1));
            }
            if i + 1 < l0.len() {
                assert(node_ok(m0, l0, c as int, i + 1));
            }
            assert forall|c2: int| 0 <= c2 < CLASS_COUNT implies #[trigger] list_ok(
                m1,
                self.lists@[c2],
                self.blocks@[c2],
                c2,
            ) by {
                assert(list_ok(m0, old(self).lists@[c2], old(self).blocks@[c2], c2));
                if c2 == c {
                    lemma_list_remove(m0, m1, l0, old(self).blocks@[c2], self.blocks@[c2], c2, i);
                } else {
                    lemma_list_frame(m0, m1, self.lists@[c2], self.blocks@[c2], c2);
                }
            }
            assert forall|c2: int, y: usize|
                0 <= c2 < CLASS_COUNT implies (#[trigger] self.lists@[c2].contains(y) <==> (old(
                self,
            ).lists@[c2].contains(y) && y != x)) by {
                if c2 == c {
                    if l1.contains(y) {
                        let k = choose|k: int| 0 <= k < l1.len() && l1[k] == y;
                        if k < i {
                            assert(l0[k] == y);
                        } else {
                            assert(l0[k + 1] == y);
                        }
                    }
                    if l0.contains(y) && y != x {
                        let k = choose|k: int| 0 <= k < l0.len() && l0[k] == y;
                        if k < i {
                            assert(l1[k] == y);
                        } else {
                            assert(l1[k - 1] == y);
                        }
                    }
                } else {
                    if old(self).lists@[c2].contains(x) {
                        assert(list_ok(m0, old(self).lists@[c2], old(self).blocks@[c2], c2));
                        let k = choose|k: int|
                            0 <= k < old(self).lists@[c2].len() && old(self).lists@[c2][k] == x;
                        assert(node_ok(m0, old(self).lists@[c2], c2, k));
                    }
                }
            }
        }
    }

    /// Takes out of the index a free block that holds at least `size` bytes: one of
    /// the class of `size` rounded up, else of the nearest non-empty class above it.
    /// `None` when no listed block is that large.
    pub fn find_block(&mut self, mem: &mut HashMap<usize, BlockHeader>, size: usize) -> (r:
        Option<usize>)
        requires
            old(self).wf(old(mem)@),
            size < MAX_BLOCK_SIZE,
        ensures
            final(self).wf(final(mem)@),
            final(mem)@.dom() == old(mem)@.dom(),
            forall|y: usize| #[trigger]
                final(mem)@.contains_key(y) ==> same_phys_fields(final(mem)@[y], old(mem)@[y]),
            r is None <==> forall|c: int, y: usize|
                0 <= c < CLASS_COUNT && #[trigger] old(self).lists@[c].contains(y) ==> old(
                    mem,
                )@[y].cap() < up_size(size as int),
            r is None ==> *final(self) == *old(self) && final(mem)@ == old(mem)@,
            r matches Some(x) ==> {
                &&& first_fit(old(self).lists@, class_of(up_size(size as int)), x)
                &&& old(self).listed(x)
                &&& old(mem)@[x].cap() >= up_size(size as int)
                &&& forall|c: int, y: usize|
                    0 <= c < CLASS_COUNT ==> (#[trigger] final(self).lists@[c].contains(y) <==> (
                    old(self).lists@[c].contains(y) && y != x))
            },
    {
        let up = get_up_size(size);
        let ghost cu = class_of(up as int);
        proof {
            crate::size_class::lemma_class_begin_end();
            if up < MAX_BLOCK_SIZE {
                lemma_class_of_begin(class_of(size as int));
                if class_of(size as int) + 1 < CLASS_COUNT {
                    lemma_class_of_begin(class_of(size as int) + 1);
                }
            }
        }
        if up >= MAX_BLOCK_SIZE || up > usize::MAX as u64 {
            proof {
                assert forall|c: int, y: usize|
                    0 <= c < CLASS_COUNT && #[trigger] self.lists@[c].contains(y) implies mem@[y].cap()
                    < up_size(size as int) by {
                    assert(list_ok(mem@, self.lists@[c], self.blocks@[c], c));
                    let k = choose|k: int| 0 <= k < self.lists@[c].len() && self.lists@[c][k] == y;
                    assert(node_ok(mem@, self.lists@[c], c, k));
                }
            }
            return None;
        }
        let (fl, sl) = get_fl_and_sl(up as usize);
        assert(crate::size_class::class_begin(cu) == up);
        let w_sl = self.sl_bitmap[fl] & (0xffff_ffffu32 << (sl as u32));
        let mut c: usize;
        if w_sl != 0 {
            let j = ffs(w_sl);
            proof {
                lemma_bit_masked(self.sl_bitmap@[fl as int], sl as u32, j);
            }
            c = fl * SL_INDEX_COUNT + j as usize;
            assert(c as int / 32 == fl && c as int % 32 == j);
            proof {
                assert forall|c2: int| cu <= c2 < c implies #[trigger] self.lists@[c2].len() == 0 by {
                    let t = c2 % 32;
                    assert(c2 / 32 == fl && sl <= t < j);
                    assert(!bit(w_sl, t));
                    lemma_bit_masked(self.sl_bitmap@[fl as int], sl as u32, t as u32);
                }
            }
        } else {
            let w_fl = self.fl_bitmap & (0xffff_ffffu32 << ((fl + 1) as u32));
            if w_fl == 0 {
                proof {
                    assert forall|c2: int, y: usize|
                        0 <= c2 < CLASS_COUNT && #[trigger] self.lists@[c2].contains(y) implies mem@[y].cap()
                        < up_size(size as int) by {
                        assert(list_ok(mem@, self.lists@[c2], self.blocks@[c2], c2));
                        let k = choose|k: int|
                            0 <= k < self.lists@[c2].len() && self.lists@[c2][k] == y;
                        assert(node_ok(mem@, self.lists@[c2], c2, k));
                        let cap = mem@[y].cap();
                        lemma_class_order(cap, cu);
                        if cap >= up {
                            let f2 = c2 / 32;
                            let s2 = c2 % 32;
                            assert(bit(self.sl_bitmap@[f2], s2));
                            if f2 == fl {
                                lemma_bit_masked(self.sl_bitmap@[fl as int], sl as u32, s2 as u32);
                            } else {
                                lemma_bit_nonzero(self.sl_bitmap@[f2], s2 as u32);
                                assert(bit(self.fl_bitmap, f2));
                                lemma_bit_masked(self.fl_bitmap, (fl + 1) as u32, f2 as u32);
                            }
                        }
                    }
                }
                return None;
            }
            let f2 = ffs(w_fl);
            proof {
                lemma_bit_masked(self.fl_bitmap, (fl + 1) as u32, f2);
                lemma_bit_high(self.fl_bitmap, f2);
            }
            let j = ffs(self.sl_bitmap[f2 as usize]);
            c = f2 as usize * SL_INDEX_COUNT + j as usize;
            assert(c as int / 32 == f2 && c as int % 32 == j);
            proof {
                assert forall|c2: int| cu <= c2 < c implies #[trigger] self.lists@[c2].len() == 0 by {
                    let f = c2 / 32;
                    let t = c2 % 32;
                    if f == fl {
                        lemma_bit_masked(self.sl_bitmap@[fl as int], sl as u32, t as u32);
                        lemma_bit_zero(t as u32);
                    } else if f < f2 {
                        assert(!bit(w_fl, f));
                        lemma_bit_masked(self.fl_bitmap, (fl + 1) as u32, f as u32);
                        assert(self.sl_bitmap@[f] == 0);
                        lemma_bit_zero(t as u32);
                    } else {
                        assert(f == f2 && t < j);
                    }
                }
            }
        }
        proof {
            assert(self.lists@[c as int].len() > 0);
            assert(list_ok(mem@, self.lists@[c as int], self.blocks@[c as int], c as int));
            assert(node_ok(mem@, self.lists@[c as int], c as int, 0));
            assert(c as int >= cu);
        }
        let x = self.blocks[c].unwrap();
        proof {
            assert(self.lists@[c as int].contains(x));
            lemma_class_order(mem@[x].cap(), cu);
            assert(first_fit(self.lists@, cu, x));
        }
        self.del_into_list(mem, x);
        Some(x)
    }

    /// The index stays well formed when no listed header changes what the lists read.
    pub proof fn lemma_wf_frame(&self, m0: Map<usize, BlockHeader>, m1: Map<usize, BlockHeader>)
        requires
            self.wf(m0),
            forall|y: usize|
                #[trigger] self.listed(y) ==> m1.contains_key(y) && same_list_view(m0[y], m1[y]),
        ensures
            self.wf(m1),
    {
        assert forall|c: int| 0 <= c < CLASS_COUNT implies #[trigger] list_ok(
            m1,
            self.lists@[c],
            self.blocks@[c],
            c,
        ) by {
            let l = self.lists@[c];
            assert(list_ok(m0, l, self.blocks@[c], c));
            assert forall|k: int| 0 <= k < l.len() implies #[trigger] node_ok(m1, l, c, k) by {
                assert(node_ok(m0, l, c, k));
                assert(l.contains(l[k]));
                assert(self.listed(l[k]));
            }
        }
    }

    /// An index with every list empty is well formed over any headers.
    pub proof fn lemma_empty_wf(&self, m: Map<usize, BlockHeader>)
        requires
            self.wf(Map::empty()),
            forall|c: int| 0 <= c < CLASS_COUNT ==> #[trigger] self.lists@[c].len() == 0,
        ensures
            self.wf(m),
    {
        assert forall|c: int| 0 <= c < CLASS_COUNT implies #[trigger] list_ok(
            m,
            self.lists@[c],
            self.blocks@[c],
            c,
        ) by {
            assert(list_ok(Map::empty(), self.lists@[c], self.blocks@[c], c));
            assert(self.lists@[c].len() == 0);
        }
    }
}

} // verus!
