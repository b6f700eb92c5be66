//! Word-level helpers: lowest set bit, floor of log2, rounding up to a multiple.
use vstd::prelude::*;
use vstd::arithmetic::power2::pow2;
use vstd::arithmetic::power2::lemma_pow2_unfold;
use vstd::arithmetic::power2::lemma_pow2_strictly_increases;
use vstd::arithmetic::div_mod::lemma_fundamental_div_mod;
use vstd::bits::lemma_u64_shr_is_div;

verus! {

/// `x` is a power of two.
pub open spec fn is_pow2(x: usize) -> bool {
    x != 0 && (x as u64) & ((x - 1) as u64) == 0
}

/// Floor of the binary logarithm of `x` (zero for `x < 2`).
pub open spec fn log2(x: nat) -> nat
    decreases x,
{
    if x < 2 {
        0
    } else {
        1 + log2(x / 2)
    }
}

/// `x` rounded up to the next multiple of `align`.
pub open spec fn align_up(x: int, align: int) -> int {
    (x + align - 1) / align * align
}

pub proof fn lemma_log2_bounds(x: nat)
    requires
        x >= 1,
    ensures
        pow2(log2(x)) <= x < pow2(log2(x) + 1),
    decreases x,
{
    if x < 2 {
        vstd::arithmetic::power2::lemma2_to64();
    } else {
        lemma_log2_bounds(x / 2);
        lemma_pow2_unfold(log2(x / 2) + 1);
        lemma_pow2_unfold(log2(x / 2) + 2);
    }
}

pub proof fn lemma_log2_unique(x: nat, k: nat)
    requires
        pow2(k) <= x < pow2(k + 1),
    ensures
        log2(x) == k,
{
    vstd::arithmetic::power2::lemma_pow2_pos(k);
    lemma_log2_bounds(x);
    let r = log2(x);
    if r < k {
        if r + 1 < k {
            lemma_pow2_strictly_increases(r + 1, k);
        }
    } else if r > k {
        if k + 1 < r {
            lemma_pow2_strictly_increases(k + 1, r);
        }
    }
}

/// Isolates the lowest set bit of `x` (zero when `x` is zero).
pub fn my_lowbit(x: usize) -> (r: usize)
    ensures
        x == 0 ==> r == 0,
        x != 0 ==> is_pow2(r) && (x as u64) & (r as u64) == r as u64 && (x as u64) & ((r
            - 1) as u64) == 0,
        x != 0 ==> (r == x <==> is_pow2(x)),
{
    let x64: u64 = x as u64;
    let r64: u64 = x64 & (!x64).wrapping_add(1);
    assert(x64 == 0 ==> r64 == 0) by (bit_vector)
        requires
            r64 == x64 & (!x64).wrapping_add(1),
    ;
    assert(x64 != 0 ==> (r64 != 0 && r64 & ((r64 - 1) as u64) == 0 && x64 & r64 == r64 && x64
        & ((r64 - 1) as u64) == 0)) by (bit_vector)
        requires
            r64 == x64 & (!x64).wrapping_add(1),
    ;
    assert(x64 != 0 ==> (r64 == x64 <==> x64 & ((x64 - 1) as u64) == 0)) by (bit_vector)
        requires
            r64 == x64 & (!x64).wrapping_add(1),
    ;
    assert(r64 <= x64) by (bit_vector)
        requires
            r64 == x64 & (!x64).wrapping_add(1),
    ;
    r64 as usize
}

/// Floor of the binary logarithm of `x`, by halving the search range six times.
pub fn my_log2(x: usize) -> (r: usize)
    ensures
        r < 64,
        r as nat == log2(x as nat),
        x > 0 ==> pow2(r as nat) <= x && (x as nat) < pow2(r as nat + 1),
{
    let x64: u64 = x as u64;
    let mut ans: u64 = 0;
    let mut y: u64 = x64;
    if (y >> 32u64) > 0 {
        y >>= 32u64;
        ans += 32;
    }
    assert(y == x64 >> ans && y >> 32u64 == 0 && ans <= 32 && (x64 > 0 ==> y > 0) && (x64 == 0 ==> ans
        == 0)) by (bit_vector)
        requires
            (x64 >> 32u64 > 0 && y == x64 >> 32usize && ans == 32) || (x64 >> 32u64 == 0 && y
                == x64 && ans == 0),
    ;
    let ghost y0 = y;
    let ghost a0 = ans;
    if (y >> 16u64) > 0 {
        y >>= 16u64;
        ans += 16;
    }
    assert(y == x64 >> ans && y >> 16u64 == 0 && ans <= 48 && (x64 > 0 ==> y > 0) && (x64 == 0 ==> ans
        == 0)) by (bit_vector)
        requires
            y0 == x64 >> a0,
            y0 >> 32u64 == 0,
            a0 <= 32,
            x64 > 0 ==> y0 > 0,
            x64 == 0 ==> a0 == 0,
            (y0 >> 16u64 > 0 && y == y0 >> 16usize && ans == a0 + 16) || (y0 >> 16u64 == 0
                && y == y0 && ans == a0),
    ;
    let ghost y0 = y;
    let ghost a0 = ans;
    if (y >> 8u64) > 0 {
        y >>= 8u64;
        ans += 8;
    }
    assert(y == x64 >> ans && y >> 8u64 == 0 && ans <= 56 && (x64 > 0 ==> y > 0) && (x64 == 0 ==> ans
        == 0)) by (bit_vector)
        requires
            y0 == x64 >> a0,
            y0 >> 16u64 == 0,
            a0 <= 48,
            x64 > 0 ==> y0 > 0,
            x64 == 0 ==> a0 == 0,
            (y0 >> 8u64 > 0 && y == y0 >> 8usize && ans == a0 + 8) || (y0 >> 8u64 == 0 && y
                == y0 && ans == a0),
    ;
    let ghost y0 = y;
    let ghost a0 = ans;
    if (y >> 4u64) > 0 {
        y >>= 4u64;
        ans += 4;
    }
    assert(y == x64 >> ans && y >> 4u64 == 0 && ans <= 60 && (x64 > 0 ==> y > 0) && (x64 == 0 ==> ans
        == 0)) by (bit_vector)
        requires
            y0 == x64 >> a0,
            y0 >> 8u64 == 0,
            a0 <= 56,
            x64 > 0 ==> y0 > 0,
            x64 == 0 ==> a0 == 0,
            (y0 >> 4u64 > 0 && y == y0 >> 4usize && ans == a0 + 4) || (y0 >> 4u64 == 0 && y
                == y0 && ans == a0),
    ;
    let ghost y0 = y;
    let ghost a0 = ans;
    if (y >> 2u64) > 0 {
        y >>= 2u64;
        ans += 2;
    }
    assert(y == x64 >> ans && y >> 2u64 == 0 && ans <= 62 && (x64 > 0 ==> y > 0) && (x64 == 0 ==> ans
        == 0)) by (bit_vector)
        requires
            y0 == x64 >> a0,
            y0 >> 4u64 == 0,
            a0 <= 60,
            x64 > 0 ==> y0 > 0,
            x64 == 0 ==> a0 == 0,
            (y0 >> 2u64 > 0 && y == y0 >> 2usize && ans == a0 + 2) || (y0 >> 2u64 == 0 && y
                == y0 && ans == a0),
    ;
    let ghost y0 = y;
    let ghost a0 = ans;
    if (y >> 1u64) > 0 {
        ans += 1;
    }
    assert((x64 > 0 ==> x64 >> ans == 1) && ans <= 63 && (x64 == 0 ==> ans == 0)) by (bit_vector)
        requires
            y0 == x64 >> a0,
            y0 >> 2u64 == 0,
            a0 <= 62,
            x64 > 0 ==> y0 > 0,
            x64 == 0 ==> a0 == 0,
            (y0 >> 1u64 > 0 && ans == a0 + 1) || (y0 >> 1u64 == 0 && ans == a0),
    ;
    proof {
        if x64 > 0 {
            lemma_u64_shr_is_div(x64, ans);
            vstd::arithmetic::power2::lemma_pow2_pos(ans as nat);
            lemma_fundamental_div_mod(x64 as int, pow2(ans as nat) as int);
            lemma_pow2_unfold(ans as nat + 1);
            lemma_log2_unique(x64 as nat, ans as nat);
        } else {
            assert(log2(0) == 0);
        }
    }
    ans as usize
}

/// Rounds `size` up to a multiple of `align`.
pub fn alignto(size: usize, align: usize) -> (r: usize)
    requires
        align > 0,
        size + align - 1 <= usize::MAX,
    ensures
        r == align_up(size as int, align as int),
        r % align == 0,
        size <= r < size + align,
{
    let t = size + (align - 1);
    let q = t / align;
    proof {
        lemma_fundamental_div_mod(t as int, align as int);
        vstd::arithmetic::mul::lemma_mul_is_commutative(q as int, align as int);
        vstd::arithmetic::div_mod::lemma_mod_multiples_basic(q as int, align as int);
    }
    let r = q * align;
    r
}

} // verus!
