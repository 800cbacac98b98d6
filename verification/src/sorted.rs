//! Sorted duplicate-free vectors as canonical representations of integer
//! sets, and the extraction of one from an ordered set.

use vstd::prelude::*;
use vstd::std_specs::iter::IteratorSpec;
use std::collections::BTreeSet;

verus! {

broadcast use vstd::std_specs::btree::group_btree_axioms, vstd::laws_cmp::group_laws_cmp;

/// The sequence is strictly increasing.
pub open spec fn sorted_strict(s: Seq<i32>) -> bool {
    forall|i: int, j: int| 0 <= i < j < s.len() ==> s[i] < s[j]
}

pub proof fn lemma_sorted_no_duplicates(s: Seq<i32>)
    requires
        sorted_strict(s),
    ensures
        s.no_duplicates(),
{
}

/// Dropping the first element of a duplicate-free sequence removes exactly
/// that element from its set of elements.
pub proof fn lemma_drop_first_to_set(s: Seq<i32>)
    requires
        s.len() >= 1,
        s.no_duplicates(),
    ensures
        s.drop_first().to_set() == s.to_set().remove(s[0]),
{
    let t = s.drop_first();
    assert(t.to_set() =~= s.to_set().remove(s[0])) by {
        assert forall|y: i32| t.to_set().contains(y) implies s.to_set().remove(s[0]).contains(
            y,
        ) by {
            let j = choose|j: int| 0 <= j < t.len() && t[j] == y;
            assert(s[j + 1] == y);
            assert(s.to_set().contains(y));
        };
        assert forall|y: i32| s.to_set().remove(s[0]).contains(y) implies t.to_set().contains(
            y,
        ) by {
            let j = choose|j: int| 0 <= j < s.len() && s[j] == y;
            assert(j != 0);
            assert(t[j - 1] == y);
            assert(t.contains(y));
        };
    };
}

/// A finite set of integers has exactly one strictly increasing sequence
/// listing its elements: the sorted form is canonical.
pub proof fn lemma_sorted_unique_by_set(a: Seq<i32>, b: Seq<i32>)
    requires
        sorted_strict(a),
        sorted_strict(b),
        a.to_set() == b.to_set(),
    ensures
        a == b,
    decreases a.len(),
{
    lemma_sorted_no_duplicates(a);
    lemma_sorted_no_duplicates(b);
    if a.len() == 0 {
        if b.len() > 0 {
            assert(b.to_set().contains(b[0]));
            assert(a.contains(b[0]));
        }
        assert(a =~= b);
    } else if b.len() == 0 {
        assert(a.to_set().contains(a[0]));
        assert(b.contains(a[0]));
    } else {
        assert(a.to_set().contains(a[0]));
        assert(b.contains(a[0]));
        let jb = choose|j: int| 0 <= j < b.len() && b[j] == a[0];
        assert(b[0] <= a[0]);
        assert(b.to_set().contains(b[0]));
        assert(a.contains(b[0]));
        let ja = choose|j: int| 0 <= j < a.len() && a[j] == b[0];
        assert(a[0] <= b[0]);
        assert(a[0] == b[0]);
        lemma_drop_first_to_set(a);
        lemma_drop_first_to_set(b);
        lemma_sorted_unique_by_set(a.drop_first(), b.drop_first());
        assert(a =~= b) by {
            assert(a.len() == b.len());
            assert(forall|i: int|
                1 <= i < a.len() ==> a[i] == a.drop_first()[i - 1] && b[i] == b.drop_first()[i
                    - 1]);
        };
    }
}

/// Decides equality of two integer vectors.
pub fn vec_eq(a: &Vec<i32>, b: &Vec<i32>) -> (r: bool)
    ensures
        r == (a@ == b@),
{
    if a.len() != b.len() {
        return false;
    }
    let mut i: usize = 0;
    while i < a.len()
        invariant
            i <= a.len(),
            a.len() == b.len(),
            forall|j: int| 0 <= j < i ==> a@[j] == b@[j],
        decreases a.len() - i,
    {
        if a[i] != b[i] {
            return false;
        }
        i = i + 1;
    }
    proof {
        assert(a@ =~= b@);
    }
    true
}

/// Lists the elements of `s` as a strictly increasing vector.
pub fn to_sorted_vec(s: &BTreeSet<i32>) -> (v: Vec<i32>)
    ensures
        sorted_strict(v@),
        v@.no_duplicates(),
        v@.to_set() == s@,
        v@.len() == s@.len(),
        s@.finite(),
{
    let mut v: Vec<i32> = Vec::new();
    proof {
        assert(v@.to_set() =~= Set::<i32>::empty());
        assert(vstd::std_specs::btree::key_obeys_cmp_spec::<i32>());
    }
    let iter = s.iter();
    let mut w = vstd::std_specs::iter::VerusForLoopWrapper::new(iter, Ghost(None));
    let ghost full: Seq<i32> = w.seq().unref();
    proof {
        assert(full.to_set() == s@);
        assert(full.len() == s@.len());
        assert(full.no_duplicates()) by {
            let r = w.seq();
            assert(r.no_duplicates());
            assert forall|i: int, j: int| 0 <= i < j < full.len() implies full[i] != full[j] by {
                assert(r[i] != r[j]);
            }
        }
        assert(full.subrange(0, 0) =~= Seq::<i32>::empty());
        assert(full.subrange(0, 0).to_set() =~= Set::<i32>::empty());
    }
    loop
        invariant
            w.wf(),
            w.iter.obeys_prophetic_iter_laws(),
            w.seq().unref() == full,
            0 <= w.index() <= full.len(),
            full.no_duplicates(),
            full.to_set() == s@,
            full.len() == s@.len(),
            sorted_strict(v@),
            v@.to_set() == full.subrange(0, w.index()).to_set(),
        ensures
            sorted_strict(v@),
            v@.to_set() == s@,
        decreases s@.len() - w.index(),
    {
        let ghost pre_index = w.index();
        let x = match w.next() {
            Some(x) => x,
            None => {
                proof {
                    assert(w.index() == full.len());
                    assert(full.subrange(0, full.len() as int) =~= full);
                }
                break ;
            },
        };
        let xi = *x;
        proof {
            assert(x == w.seq()[pre_index]);
            assert(full[pre_index] == xi);
            assert(!full.subrange(0, pre_index).contains(xi)) by {
                if full.subrange(0, pre_index).contains(xi) {
                    let j = choose|j: int|
                        0 <= j < pre_index && full.subrange(0, pre_index)[j] == xi;
                    assert(full[j] == xi);
                }
            }
            assert(!v@.to_set().contains(xi));
            lemma_sorted_no_duplicates(v@);
        }
        let mut i: usize = 0;
        while i < v.len() && v[i] < xi
            invariant
                i <= v.len(),
                forall|j: int| 0 <= j < i ==> v@[j] < xi,
            decreases v.len() - i,
        {
            i = i + 1;
        }
        proof {
            if i < v.len() {
                assert(v@.to_set().contains(v@[i as int]));
                assert(v@[i as int] != xi);
            }
        }
        let ghost old_v = v@;
        v.insert(i, xi);
        proof {
            assert(sorted_strict(v@)) by {
                assert(forall|j: int| 0 <= j < i ==> v@[j] == old_v[j]);
                assert(v@[i as int] == xi);
                assert(forall|j: int| i < j < v@.len() ==> v@[j] == old_v[j - 1]);
                assert(forall|j: int| i as int <= j < old_v.len() ==> old_v[j] > xi) by {
                    assert(forall|j: int|
                        i as int <= j < old_v.len() ==> old_v[i as int] <= old_v[j]);
                };
            };
            assert(v@.to_set() =~= old_v.to_set().insert(xi)) by {
                assert forall|y: i32| v@.contains(y) implies old_v.contains(y) || y == xi by {
                    let j = choose|j: int| 0 <= j < v@.len() && v@[j] == y;
                    if j < i {
                        assert(old_v[j] == y);
                    } else if j > i {
                        assert(old_v[j - 1] == y);
                    }
                };
                assert forall|y: i32| old_v.contains(y) implies v@.contains(y) by {
                    let j = choose|j: int| 0 <= j < old_v.len() && old_v[j] == y;
                    if j < i {
                        assert(v@[j] == y);
                    } else {
                        assert(v@[j + 1] == y);
                    }
                };
                assert(v@[i as int] == xi);
                assert(v@.contains(xi));
            };
            assert(full.subrange(0, pre_index + 1).to_set() =~= full.subrange(
                0,
                pre_index,
            ).to_set().insert(xi)) by {
                let pre = full.subrange(0, pre_index);
                let pre1 = full.subrange(0, pre_index + 1);
                assert(pre1 =~= pre.push(xi));
                pre.lemma_push_to_set_commute(xi);
            };
        }
    }
    proof {
        lemma_sorted_no_duplicates(v@);
        v@.unique_seq_to_set();
        vstd::seq_lib::seq_to_set_is_finite::<i32>(v@);
    }
    v
}

} // verus!
