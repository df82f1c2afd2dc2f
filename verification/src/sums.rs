//! Ghost machinery: sums of an integer-valued function over finite sets, and
//! sums of the values of finite maps. The account invariant (held funds equal
//! the sum of the disputed deposits) and the money-conservation law are both
//! stated with these.

use vstd::prelude::*;

verus! {

/// The sum of `f` over the finite set `s` (0 for infinite sets).
pub open spec fn sum_over<K>(s: Set<K>, f: spec_fn(K) -> int) -> int
    decreases s.len(),
{
    if s.finite() && s.len() > 0 {
        let k = s.choose();
        f(k) + sum_over(s.remove(k), f)
    } else {
        0
    }
}

/// Summing over a set only looks at `f` on the set's elements.
pub proof fn lemma_sum_congruence<K>(s: Set<K>, f1: spec_fn(K) -> int, f2: spec_fn(K) -> int)
    requires
        forall|k: K| s.contains(k) ==> #[trigger] f1(k) == #[trigger] f2(k),
    ensures
        sum_over(s, f1) == sum_over(s, f2),
    decreases s.len(),
{
    if s.finite() && s.len() > 0 {
        let k = s.choose();
        lemma_sum_congruence(s.remove(k), f1, f2);
    }
}

/// Splitting off one element of a finite set splits the sum.
pub proof fn lemma_sum_remove<K>(s: Set<K>, f: spec_fn(K) -> int, k: K)
    requires
        s.finite(),
        s.contains(k),
    ensures
        sum_over(s, f) == f(k) + sum_over(s.remove(k), f),
    decreases s.len(),
{
    let k0 = s.choose();
    assert(s.contains(k0));
    if k0 != k {
        let s1 = s.remove(k0);
        lemma_sum_remove(s1, f, k);
        lemma_sum_remove(s.remove(k), f, k0);
        assert(s1.remove(k) =~= s.remove(k).remove(k0));
    }
}

/// Adding a fresh element to a finite set adds its value to the sum.
pub proof fn lemma_sum_insert<K>(s: Set<K>, f: spec_fn(K) -> int, k: K)
    requires
        s.finite(),
        !s.contains(k),
    ensures
        sum_over(s.insert(k), f) == sum_over(s, f) + f(k),
{
    lemma_sum_remove(s.insert(k), f, k);
    assert(s.insert(k).remove(k) =~= s);
}

/// A sum of non-negative values is non-negative.
pub proof fn lemma_sum_nonneg<K>(s: Set<K>, f: spec_fn(K) -> int)
    requires
        s.finite(),
        forall|k: K| s.contains(k) ==> #[trigger] f(k) >= 0,
    ensures
        sum_over(s, f) >= 0,
    decreases s.len(),
{
    if s.len() > 0 {
        let k = s.choose();
        assert(s.contains(k));
        lemma_sum_nonneg(s.remove(k), f);
    }
}

/// In a sum of non-negative values, each single value is at most the sum.
pub proof fn lemma_sum_entry_bound<K>(s: Set<K>, f: spec_fn(K) -> int, k: K)
    requires
        s.finite(),
        s.contains(k),
        forall|k0: K| s.contains(k0) ==> #[trigger] f(k0) >= 0,
    ensures
        f(k) <= sum_over(s, f),
{
    lemma_sum_remove(s, f, k);
    lemma_sum_nonneg(s.remove(k), f);
}

/// The sum of the values of a finite map of amounts.
pub open spec fn map_sum(m: Map<u32, int>) -> int {
    sum_over(m.dom(), |k: u32| m[k])
}

/// Inserting a key (fresh or not) into a finite map changes the value sum by
/// the difference between the new value and the displaced one.
pub proof fn lemma_map_sum_insert(m: Map<u32, int>, k: u32, v: int)
    requires
        m.dom().finite(),
    ensures
        m.contains_key(k) ==> map_sum(m.insert(k, v)) == map_sum(m) - m[k] + v,
        !m.contains_key(k) ==> map_sum(m.insert(k, v)) == map_sum(m) + v,
{
    let m1 = m.insert(k, v);
    let f = |k0: u32| m[k0];
    let f1 = |k0: u32| m1[k0];
    if m.contains_key(k) {
        lemma_sum_remove(m.dom(), f, k);
        lemma_sum_remove(m1.dom(), f1, k);
        assert(m1.dom() =~= m.dom());
        lemma_sum_congruence(m.dom().remove(k), f, f1);
    } else {
        assert(m1.dom() =~= m.dom().insert(k));
        lemma_sum_insert(m.dom(), f1, k);
        lemma_sum_congruence(m.dom(), f, f1);
    }
}

/// Removing a key from a finite map removes its value from the sum.
pub proof fn lemma_map_sum_remove(m: Map<u32, int>, k: u32)
    requires
        m.dom().finite(),
        m.contains_key(k),
    ensures
        map_sum(m.remove(k)) == map_sum(m) - m[k],
{
    let m1 = m.remove(k);
    let f = |k0: u32| m[k0];
    let f1 = |k0: u32| m1[k0];
    lemma_sum_remove(m.dom(), f, k);
    assert(m1.dom() =~= m.dom().remove(k));
    lemma_sum_congruence(m.dom().remove(k), f, f1);
}

/// In a map of non-negative values, each value is at most the sum.
pub proof fn lemma_map_sum_entry_bound(m: Map<u32, int>, k: u32)
    requires
        m.dom().finite(),
        m.contains_key(k),
        forall|k0: u32| m.contains_key(k0) ==> #[trigger] m[k0] >= 0,
    ensures
        m[k] <= map_sum(m),
        map_sum(m) >= 0,
{
    let f = |k0: u32| m[k0];
    lemma_sum_entry_bound(m.dom(), f, k);
    lemma_sum_nonneg(m.dom(), f);
}

/// The sum of an empty map is zero.
pub proof fn lemma_map_sum_empty()
    ensures
        map_sum(Map::<u32, int>::empty()) == 0,
{
    assert(Map::<u32, int>::empty().dom() =~= Set::<u32>::empty());
}

} // verus!
