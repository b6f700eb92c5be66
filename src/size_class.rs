//! Two-level size classes: a first level by power of two, a second level that
//! cuts each power-of-two range into equal slots.
use vstd::prelude::*;
use vstd::arithmetic::power2::pow2;
use vstd::arithmetic::power2::lemma_pow2_unfold;
use vstd::arithmetic::power2::lemma_pow2_adds;
use vstd::arithmetic::power2::lemma_pow2_pos;
use vstd::arithmetic::power2::lemma_pow2_strictly_increases;
use vstd::arithmetic::div_mod::lemma_fundamental_div_mod;
use vstd::bits::lemma_u64_shr_is_div;
use vstd::bits::lemma_u64_shl_is_mul;
use crate::bits::log2;
use crate::bits::lemma_log2_bounds;
use crate::bits::my_log2;

verus! {

/// Number of first-level classes.
pub const FL_INDEX_COUNT: usize = 28;

/// Number of second-level slots in each first-level class.
pub const SL_INDEX_COUNT: usize = 32;

/// log2 of the smallest size handled by the first level above zero.
pub const FL_INDEX_SHIFT: usize = 8;

/// Sizes below this all fall in first-level class zero, in steps of eight bytes.
pub const SMALL_BLOCK_SIZE: usize = 256;

/// Number of classes in all: `FL_INDEX_COUNT * SL_INDEX_COUNT`.
pub const CLASS_COUNT: usize = 896;

/// The first size past the last class: no block may be this large.
pub const MAX_BLOCK_SIZE: u64 = 0x8_0000_0000;

/// The smallest size in class `c`, where `c = fl * SL_INDEX_COUNT + sl`.
pub open spec fn class_begin(c: int) -> int {
    if c < 32 {
        8 * c
    } else {
        (32 + c % 32) * pow2((c / 32 + 2) as nat)
    }
}

/// The class that holds size `s`, as `fl * SL_INDEX_COUNT + sl`.
pub open spec fn class_of(s: int) -> int {
    if s < 256 {
        s / 8
    } else {
        let r = log2(s as nat);
        (r - 8) * 32 + s / pow2((r - 5) as nat) as int
    }
}

/// The smallest class start that is at least `s`.
pub open spec fn up_size(s: int) -> int {
    if class_begin(class_of(s)) == s {
        s
    } else {
        class_begin(class_of(s) + 1)
    }
}

proof fn lemma_pow2_values()
    ensures
        pow2(5) == 32,
        pow2(8) == 256,
        pow2(30) == 0x4000_0000,
        pow2(35) == 0x8_0000_0000,
        32 * pow2(30) == 0x8_0000_0000,
{
    vstd::arithmetic::power2::lemma2_to64();
    vstd::arithmetic::power2::lemma2_to64_rest();
}

/// The start of the class past the last one is the size bound.
pub proof fn lemma_class_begin_end()
    ensures
        class_begin(CLASS_COUNT as int) == MAX_BLOCK_SIZE,
{
    lemma_pow2_values();
}

/// Sizes under the bound fall in one of the classes, between its start and the next's.
pub proof fn lemma_class_of_bounds(s: int)
    requires
        0 <= s < MAX_BLOCK_SIZE,
    ensures
        0 <= class_of(s) < CLASS_COUNT,
        class_begin(class_of(s)) <= s < class_begin(class_of(s) + 1),
        s >= 256 ==> 8 <= log2(s as nat) < 35 && 32 <= s / (pow2((log2(s as nat) - 5) as nat)
            as int) < 64,
{
    lemma_pow2_values();
    if s < 256 {
        vstd::arithmetic::power2::lemma2_to64();
        assert(8 * (s / 8) <= s < 8 * (s / 8) + 8);
        assert(class_of(s) == s / 8);
        assert(class_begin(s / 8) == 8 * (s / 8));
        if s / 8 + 1 == 32 {
            assert((s / 8 + 1) / 32 == 1 && (s / 8 + 1) % 32 == 0);
            assert(class_begin(s / 8 + 1) == 32 * pow2(3));
        } else {
            assert(class_begin(s / 8 + 1) == 8 * (s / 8 + 1));
        }
        assert(s < class_begin(s / 8 + 1));
    } else {
        let r = log2(s as nat);
        lemma_log2_bounds(s as nat);
        if r + 1 < 8 {
            lemma_pow2_strictly_increases(r + 1, 8);
        }
        if r >= 35 {
            if r > 35 {
                lemma_pow2_strictly_increases(35, r);
            }
        }
        let k = (r - 5) as nat;
        lemma_pow2_pos(k);
        lemma_pow2_adds(k, 5);
        lemma_pow2_adds(k, 6);
        lemma_pow2_unfold(6);
        let p = pow2(k) as int;
        let q = s / p;
        lemma_fundamental_div_mod(s, p);
        vstd::arithmetic::div_mod::lemma_mod_pos_bound(s, p);
        vstd::arithmetic::mul::lemma_mul_is_commutative(p, q);
        assert(pow2(k + 5) == p * 32 && pow2(k + 6) == p * 64);
        assert((r - 5) as nat + 5 == r);
        assert(32 * p <= s < 64 * p);
        assert(32 <= q < 64) by {
            if q < 32 {
                assert(q * p <= 31 * p) by (nonlinear_arith)
                    requires
                        q < 32,
                        p > 0,
                ;
            }
            if q >= 64 {
                assert(q * p >= 64 * p) by (nonlinear_arith)
                    requires
                        q >= 64,
                        p > 0,
                ;
            }
        }
        let c = (r - 8) * 32 + q;
        assert(class_of(s) == c);
        assert(c / 32 == r - 7 && c % 32 == q - 32);
        assert(c >= 32);
        assert((c / 32 + 2) as nat == k);
        assert(class_begin(c) == q * p);
        if q < 63 {
            assert((c + 1) / 32 == r - 7 && (c + 1) % 32 == q - 31);
            assert(class_begin(c + 1) == (q + 1) * p);
            assert((q + 1) * p == q * p + p) by (nonlinear_arith);
        } else {
            assert((c + 1) / 32 == r - 6 && (c + 1) % 32 == 0);
            lemma_pow2_unfold(k + 1);
            assert(class_begin(c + 1) == 32 * pow2(k + 1));
        }
        assert(r < 35);
        assert(class_begin(c) <= s);
        assert(s < class_begin(c + 1));
    }
}

/// Class starts grow strictly with the class.
pub proof fn lemma_class_begin_increasing(c1: int, c2: int)
    requires
        0 <= c1 < c2 <= CLASS_COUNT,
    ensures
        class_begin(c1) < class_begin(c2),
    decreases c2 - c1,
{
    if c1 + 1 < c2 {
        lemma_class_begin_increasing(c1, c1 + 1);
        lemma_class_begin_increasing(c1 + 1, c2);
    } else {
        lemma_pow2_values();
        if c2 < 32 {
        } else if c1 < 32 {
            vstd::arithmetic::power2::lemma2_to64();
            assert(c1 == 31 && c2 == 32);
            assert(c2 / 32 == 1 && c2 % 32 == 0);
            assert(class_begin(c2) == 32 * pow2(3));
        } else {
            let k = (c1 / 32 + 2) as nat;
            lemma_pow2_pos(k);
            if c2 % 32 == 0 {
                assert(c1 % 32 == 31);
                assert(c2 / 32 == c1 / 32 + 1);
                lemma_pow2_unfold(k + 1);
                assert(class_begin(c1) == 63 * pow2(k));
                assert(class_begin(c2) == 32 * pow2(k + 1));
            } else {
                assert(c2 / 32 == c1 / 32 && c2 % 32 == c1 % 32 + 1);
                assert((32 + c1 % 32) * pow2(k) < (33 + c1 % 32) * pow2(k)) by (nonlinear_arith)
                    requires
                        pow2(k) > 0,
                ;
            }
        }
    }
}

/// A size reaches class `c` exactly when it is at least that class's start.
pub proof fn lemma_class_order(s: int, c: int)
    requires
        0 <= s < MAX_BLOCK_SIZE,
        0 <= c <= CLASS_COUNT,
    ensures
        s >= class_begin(c) <==> class_of(s) >= c,
{
    lemma_class_of_bounds(s);
    let cs = class_of(s);
    if cs >= c && c < cs {
        lemma_class_begin_increasing(c, cs);
    }
    if cs < c && cs + 1 < c {
        lemma_class_begin_increasing(cs + 1, c);
    }
}

/// Each class start lies in its own class.
pub proof fn lemma_class_of_begin(c: int)
    requires
        0 <= c < CLASS_COUNT,
    ensures
        class_of(class_begin(c)) == c,
        0 <= class_begin(c) < MAX_BLOCK_SIZE,
{
    lemma_pow2_values();
    lemma_class_begin_increasing(c, CLASS_COUNT as int);
    if c > 0 {
        lemma_class_begin_increasing(0, c);
    }
    lemma_class_order(class_begin(c), c);
    lemma_class_order(class_begin(c), c + 1);
    if c + 1 < CLASS_COUNT {
        lemma_class_begin_increasing(c, c + 1);
    }
}

/// The first- and second-level class of `size`.
pub fn get_fl_and_sl(size: usize) -> (r: (usize, usize))
    requires
        size < MAX_BLOCK_SIZE,
    ensures
        r.0 < FL_INDEX_COUNT,
        r.1 < SL_INDEX_COUNT,
        r.0 * 32 + r.1 == class_of(size as int),
{
    proof {
        lemma_class_of_bounds(size as int);
        lemma_pow2_values();
    }
    let size64 = size as u64;
    if size < SMALL_BLOCK_SIZE {
        let sl = (size64 >> 3u64) as usize;
        proof {
            lemma_u64_shr_is_div(size64, 3);
            vstd::arithmetic::power2::lemma2_to64();
        }
        (0, sl)
    } else {
        let r = my_log2(size) as u64;
        proof {
            lemma_log2_bounds(size as nat);
            lemma_pow2_values();
            if r + 1 < 8 {
                lemma_pow2_strictly_increases(r as nat + 1, 8);
            }
        }
        let fl = r - (FL_INDEX_SHIFT as u64 - 1);
        let sh = fl + 2;
        let q = size64 >> sh;
        proof {
            lemma_u64_shr_is_div(size64, sh);
            assert(q == class_of(size as int) - (r - 8) * 32);
            assert(32 <= q < 64);
        }
        let sl = q & 31;
        assert(sl == q - 32) by (bit_vector)
            requires
                32 <= q < 64,
                sl == q & 31,
        ;
        (fl as usize, sl as usize)
    }
}

/// The smallest size in class (`fl`, `sl`).
pub fn get_block_begin_size(fl: usize, sl: usize) -> (r: u64)
    requires
        sl < SL_INDEX_COUNT,
        fl * 32 + sl <= CLASS_COUNT,
    ensures
        r == class_begin(fl * 32 + sl),
{
    let c = Ghost(fl * 32 + sl);
    assert(c@ / 32 == fl && c@ % 32 == sl);
    if fl == 0 {
        proof {
            vstd::arithmetic::power2::lemma2_to64();
            lemma_u64_shl_is_mul(sl as u64, 3);
        }
        (sl as u64) << 3u64
    } else {
        let m: u64 = 32 + sl as u64;
        let k: u64 = fl as u64 + 2;
        proof {
            if c@ < CLASS_COUNT {
                lemma_class_begin_increasing(c@, CLASS_COUNT as int);
            }
            lemma_pow2_values();
            vstd::arithmetic::power2::lemma2_to64();
            lemma_pow2_pos(k as nat);
        }
        assert(m * pow2(k as nat) <= u64::MAX);
        proof {
            lemma_u64_shl_is_mul(m, k);
        }
        m << k
    }
}

/// Rounds `size` up to the start of a class, so that every block of that class
/// or a later one holds at least `size` bytes.
pub fn get_up_size(size: usize) -> (r: u64)
    requires
        size < MAX_BLOCK_SIZE,
    ensures
        r == up_size(size as int),
        size <= r <= MAX_BLOCK_SIZE,
        class_of(size as int) < CLASS_COUNT,
        r == class_begin(class_of(size as int)) || r == class_begin(class_of(size as int) + 1),
{
    let (fl, sl) = get_fl_and_sl(size);
    proof {
        lemma_class_of_bounds(size as int);
        if class_of(size as int) + 1 < CLASS_COUNT {
            lemma_class_begin_increasing(class_of(size as int) + 1, CLASS_COUNT as int);
        }
        lemma_pow2_values();
    }
    let begin = get_block_begin_size(fl, sl);
    if begin == size as u64 {
        size as u64
    } else if sl + 1 < SL_INDEX_COUNT {
        get_block_begin_size(fl, sl + 1)
    } else {
        get_block_begin_size(fl + 1, 0)
    }
}

} // verus!
