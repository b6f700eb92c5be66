//! Sums of an integer weight over a finite set of addresses.
use vstd::prelude::*;

verus! {

/// The sum of `f` over the finite set `s`.
pub closed spec fn set_sum(s: Set<usize>, f: spec_fn(usize) -> int) -> int
    decreases s.len(),
    when s.finite()
{
    if s.len() == 0 {
        0
    } else {
        let x = s.choose();
        f(x) + set_sum(s.remove(x), f)
    }
}

/// The sum over the empty set is zero.
pub proof fn lemma_set_sum_empty(f: spec_fn(usize) -> int)
    ensures
        set_sum(Set::empty(), f) == 0,
{
}

/// Taking one element out of the set takes its weight out of the sum.
pub proof fn lemma_set_sum_remove(s: Set<usize>, f: spec_fn(usize) -> int, a: usize)
    requires
        s.finite(),
        s.contains(a),
    ensures
        set_sum(s, f) == f(a) + set_sum(s.remove(a), f),
    decreases s.len(),
{
    let x = s.choose();
    assert(s.len() > 0);
    if x != a {
        lemma_set_sum_remove(s.remove(x), f, a);
        lemma_set_sum_remove(s.remove(a), f, x);
        assert(s.remove(x).remove(a) =~= s.remove(a).remove(x));
    }
}

/// Adding a new element adds its weight.
pub proof fn lemma_set_sum_insert(s: Set<usize>, f: spec_fn(usize) -> int, a: usize)
    requires
        s.finite(),
        !s.contains(a),
    ensures
        set_sum(s.insert(a), f) == f(a) + set_sum(s, f),
{
    lemma_set_sum_remove(s.insert(a), f, a);
    assert(s.insert(a).remove(a) =~= s);
}

/// Weights that agree on the set give the same sum.
pub proof fn lemma_set_sum_frame(s: Set<usize>, f: spec_fn(usize) -> int, g: spec_fn(usize) -> int)
    requires
        s.finite(),
        forall|x: usize| s.contains(x) ==> f(x) == g(x),
    ensures
        set_sum(s, f) == set_sum(s, g),
    decreases s.len(),
{
    if s.len() > 0 {
        let x = s.choose();
        lemma_set_sum_frame(s.remove(x), f, g);
    }
}

/// A weight at least another one on the set gives at least its sum.
pub proof fn lemma_set_sum_le(s: Set<usize>, f: spec_fn(usize) -> int, g: spec_fn(usize) -> int)
    requires
        s.finite(),
        forall|x: usize| s.contains(x) ==> f(x) <= g(x),
    ensures
        set_sum(s, f) <= set_sum(s, g),
    decreases s.len(),
{
    if s.len() > 0 {
        let x = s.choose();
        lemma_set_sum_le(s.remove(x), f, g);
    }
}

/// The sum of a weight that is zero on the whole set is zero.
pub proof fn lemma_set_sum_zero(s: Set<usize>, f: spec_fn(usize) -> int)
    requires
        s.finite(),
        forall|x: usize| s.contains(x) ==> f(x) == 0,
    ensures
        set_sum(s, f) == 0,
    decreases s.len(),
{
    if s.len() > 0 {
        let x = s.choose();
        lemma_set_sum_zero(s.remove(x), f);
    }
}

/// Sums add up pointwise.
pub proof fn lemma_set_sum_add(
    s: Set<usize>,
    f: spec_fn(usize) -> int,
    g: spec_fn(usize) -> int,
    h: spec_fn(usize) -> int,
)
    requires
        s.finite(),
        forall|x: usize| s.contains(x) ==> h(x) == f(x) + g(x),
    ensures
        set_sum(s, h) == set_sum(s, f) + set_sum(s, g),
    decreases s.len(),
{
    if s.len() > 0 {
        let x = s.choose();
        lemma_set_sum_add(s.remove(x), f, g, h);
    }
}

/// Changing the weight of one element and adding one new element.
pub proof fn lemma_set_sum_replace(
    s: Set<usize>,
    f0: spec_fn(usize) -> int,
    f1: spec_fn(usize) -> int,
    x: usize,
    y: usize,
)
    requires
        s.finite(),
        s.contains(x),
        !s.contains(y),
        forall|k: usize| s.contains(k) && k != x ==> f0(k) == f1(k),
    ensures
        set_sum(s.insert(y), f1) == set_sum(s, f0) - f0(x) + f1(x) + f1(y),
{
    lemma_set_sum_insert(s, f1, y);
    lemma_set_sum_remove(s, f1, x);
    lemma_set_sum_remove(s, f0, x);
    lemma_set_sum_frame(s.remove(x), f0, f1);
}

/// Changing the weight of one element.
pub proof fn lemma_set_sum_point(s: Set<usize>, f0: spec_fn(usize) -> int, f1: spec_fn(usize) -> int, x: usize)
    requires
        s.finite(),
        s.contains(x),
        forall|k: usize| s.contains(k) && k != x ==> f0(k) == f1(k),
    ensures
        set_sum(s, f1) == set_sum(s, f0) - f0(x) + f1(x),
{
    lemma_set_sum_remove(s, f1, x);
    lemma_set_sum_remove(s, f0, x);
    lemma_set_sum_frame(s.remove(x), f0, f1);
}

/// A weight that is never negative has a sum at least its value at any element.
pub proof fn lemma_set_sum_ge_elem(s: Set<usize>, f: spec_fn(usize) -> int, x: usize)
    requires
        s.finite(),
        s.contains(x),
        forall|k: usize| s.contains(k) ==> f(k) >= 0,
    ensures
        set_sum(s, f) >= f(x),
{
    lemma_set_sum_remove(s, f, x);
    let z = |k: usize| 0int;
    lemma_set_sum_zero(s.remove(x), z);
    lemma_set_sum_le(s.remove(x), z, f);
}

} // verus!
