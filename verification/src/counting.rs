//! Counting the subsets of a finite set. The memo can acquire at most one
//! entry per subset of the queried set, so this bounds the growth of the
//! miss counter.

use vstd::prelude::*;
use vstd::set_lib::{lemma_len_subset, lemma_len_union, lemma_map_size_bound};

verus! {

/// Two to the power `n`.
pub open spec fn pow2(n: nat) -> nat
    decreases n,
{
    if n == 0 {
        1
    } else {
        2 * pow2((n - 1) as nat)
    }
}

/// All finite subsets of `s`.
pub open spec fn subsets_of(s: Set<i32>) -> Set<Set<i32>> {
    Set::new(|t: Set<i32>| t.finite() && t.subset_of(s))
}

/// A subset of a subset of `s` is a subset of `s`.
pub proof fn lemma_subsets_of_monotone(r: Set<i32>, s: Set<i32>)
    requires
        r.subset_of(s),
    ensures
        subsets_of(r).subset_of(subsets_of(s)),
{
}

/// A finite set with `n` elements has finitely many subsets, at most `2^n`.
pub proof fn lemma_subsets_of_finite(s: Set<i32>)
    requires
        s.finite(),
    ensures
        subsets_of(s).finite(),
        subsets_of(s).len() <= pow2(s.len()),
    decreases s.len(),
{
    if s.len() == 0 {
        assert(s =~= Set::empty());
        assert(subsets_of(s) =~= Set::empty().insert(Set::<i32>::empty())) by {
            assert forall|t: Set<i32>| subsets_of(s).contains(t) implies Set::empty().insert(
                Set::<i32>::empty(),
            ).contains(t) by {
                assert(t =~= Set::<i32>::empty());
            }
            assert(Set::<i32>::empty().finite() && Set::<i32>::empty().subset_of(s));
        }
    } else {
        let x = s.choose();
        assert(s.contains(x));
        let r = s.remove(x);
        lemma_subsets_of_finite(r);
        let a = subsets_of(r);
        let f = |t: Set<i32>| t.insert(x);
        let b = a.map(f);
        lemma_map_size_bound(a, b, f);
        assert(subsets_of(s).subset_of(a.union(b))) by {
            assert forall|t: Set<i32>| subsets_of(s).contains(t) implies a.union(b).contains(
                t,
            ) by {
                if t.contains(x) {
                    let u = t.remove(x);
                    assert(u.finite() && u.subset_of(r));
                    assert(a.contains(u));
                    assert(f(u) =~= t);
                    assert(b.contains(t));
                } else {
                    assert(t.subset_of(r));
                }
            }
        }
        lemma_len_union(a, b);
        vstd::set_lib::lemma_set_subset_finite(a.union(b), subsets_of(s));
        lemma_len_subset(subsets_of(s), a.union(b));
        assert(pow2(s.len()) == 2 * pow2(r.len()));
    }
}

} // verus!
