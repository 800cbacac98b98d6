//! Brute-force prototypes: exhaustive permutation generation and the naive
//! all-pairs / all-adjacent checks over the square-sum rule.

use vstd::prelude::*;
use std::collections::BTreeSet;
use crate::chains::chains_view;
use crate::sorted::{lemma_drop_first_to_set, lemma_sorted_no_duplicates, to_sorted_vec};
use crate::square::{is_perfect_sq, is_square};

verus! {

broadcast use vstd::std_specs::btree::group_btree_axioms, vstd::laws_cmp::group_laws_cmp;

/// `p` lists every element of `s` exactly once.
pub open spec fn perm_of(p: Seq<i32>, s: Set<i32>) -> bool {
    &&& p.no_duplicates()
    &&& p.to_set() == s
}

/// All sums of two entries of `s` (including an entry with itself) fit in an
/// `i32`.
pub open spec fn vec_sums_fit(s: Seq<i32>) -> bool {
    forall|i: int, j: int|
        0 <= i < s.len() && 0 <= j < s.len() ==> i32::MIN <= #[trigger] (s[i] + s[j]) <= i32::MAX
}

proof fn lemma_perm_first_tail(p: Seq<i32>, s: Set<i32>)
    requires
        perm_of(p, s),
        p.len() >= 1,
    ensures
        s.contains(p[0]),
        perm_of(p.drop_first(), s.remove(p[0])),
    decreases p.len(),
{
    assert(p.to_set().contains(p[0]));
    lemma_drop_first_to_set(p);
    assert(p.drop_first().no_duplicates()) by {
        assert(forall|i: int| 0 <= i < p.drop_first().len() ==> p.drop_first()[i] == p[i + 1]);
    }
}

proof fn lemma_perm_prepend(q: Seq<i32>, s: Set<i32>, e: i32)
    requires
        s.contains(e),
        perm_of(q, s.remove(e)),
    ensures
        perm_of(seq![e] + q, s),
{
    let p = seq![e] + q;
    assert(p[0] == e);
    assert(forall|i: int| 1 <= i < p.len() ==> p[i] == q[i - 1]);
    assert(!q.contains(e)) by {
        if q.contains(e) {
            assert(q.to_set().contains(e));
        }
    }
    assert(p.no_duplicates()) by {
        assert forall|i: int, j: int| 0 <= i < j < p.len() implies p[i] != p[j] by {
            if i == 0 {
                assert(p[j] == q[j - 1]);
                assert(q.contains(q[j - 1]));
            }
        }
    }
    assert(p.to_set() =~= s) by {
        assert forall|y: i32| p.to_set().contains(y) implies s.contains(y) by {
            let i = choose|i: int| 0 <= i < p.len() && p[i] == y;
            if i > 0 {
                assert(q.contains(y));
                assert(q.to_set().contains(y));
            }
        }
        assert forall|y: i32| s.contains(y) implies p.to_set().contains(y) by {
            if y == e {
                assert(p.contains(p[0]));
            } else {
                assert(q.to_set().contains(y));
                let i = choose|i: int| 0 <= i < q.len() && q[i] == y;
                assert(p[i + 1] == y);
                assert(p.contains(y));
            }
        }
    }
}

/// Exhaustively generates the orderings of `x`'s elements by repeatedly
/// removing an element, expanding the rest, and prepending. The set is
/// restored before returning. For a one-element set the single ordering is
/// returned; for the empty set, nothing.
#[verifier::loop_isolation(false)]
#[verifier::rlimit(60)]
pub fn expand(x: &mut BTreeSet<i32>) -> (ret: Vec<Vec<i32>>)
    ensures
        final(x)@ == old(x)@,
        old(x)@.finite(),
        forall|t: int|
            0 <= t < ret@.len() ==> perm_of(#[trigger] chains_view(ret@)[t], old(x)@),
        chains_view(ret@).no_duplicates(),
        old(x)@.len() >= 1 ==> forall|p: Seq<i32>|
            perm_of(p, old(x)@) ==> chains_view(ret@).contains(p),
        old(x)@.len() == 0 ==> ret@.len() == 0,
    decreases old(x)@.len(),
{
    let ghost sk = x@;
    let items: Vec<i32> = to_sorted_vec(x);
    proof {
        lemma_sorted_no_duplicates(items@);
    }
    if items.len() == 1 {
        let mut inner: Vec<i32> = Vec::new();
        inner.push(items[0]);
        let mut tmp: Vec<Vec<i32>> = Vec::new();
        tmp.push(inner);
        proof {
            let e = items@[0];
            assert(chains_view(tmp@) =~= seq![seq![e]]);
            assert(seq![e].to_set() =~= sk) by {
                assert(seq![e][0] == e);
                assert(seq![e].contains(e));
                assert forall|y: i32| seq![e].to_set().contains(y) implies sk.contains(y) by {
                    let t = choose|t: int| 0 <= t < 1 && seq![e][t] == y;
                }
                assert forall|y: i32| sk.contains(y) implies seq![e].to_set().contains(y) by {
                    assert(items@.to_set().contains(y));
                    let t = choose|t: int| 0 <= t < items@.len() && items@[t] == y;
                }
            }
            assert(perm_of(seq![e], sk));
            assert forall|p: Seq<i32>| perm_of(p, sk) implies chains_view(tmp@).contains(p) by {
                p.unique_seq_to_set();
                assert(p.len() == 1);
                assert(p.to_set().contains(p[0]));
                assert(p =~= seq![e]);
                assert(chains_view(tmp@)[0] == p);
            }
        }
        return tmp;
    }
    let mut ret: Vec<Vec<i32>> = Vec::new();
    let ghost n = items@.len() as int;
    let mut idx: usize = 0;
    proof {
        assert(items@.subrange(0, 0) =~= Seq::<i32>::empty());
        assert(chains_view(ret@) =~= Seq::<Seq<i32>>::empty());
    }
    while idx < items.len()
        invariant
            idx <= n,
            x@ == sk,
            sk.len() == 0 ==> ret@.len() == 0,
            forall|t: int|
                0 <= t < ret@.len() ==> perm_of(#[trigger] chains_view(ret@)[t], sk),
            forall|t: int|
                0 <= t < ret@.len() ==> items@.subrange(0, idx as int).contains(
                    (#[trigger] chains_view(ret@)[t])[0],
                ) && chains_view(ret@)[t].len() >= 1,
            chains_view(ret@).no_duplicates(),
            forall|p: Seq<i32>|
                perm_of(p, sk) && p.len() >= 1 && items@.subrange(0, idx as int).contains(p[0])
                    ==> chains_view(ret@).contains(p),
        decreases n - idx,
    {
        let item = items[idx];
        proof {
            assert(items@.contains(item));
            assert(sk.contains(item));
        }
        x.remove(&item);
        proof {
            assert(x@ == sk.remove(item));
            assert(x@.len() == sk.len() - 1);
        }
        let remainder = expand(x);
        let ghost sub = chains_view(remainder@);
        let mut t: usize = 0;
        let ghost pre_rv = chains_view(ret@);
        while t < remainder.len()
            invariant
                t <= remainder@.len(),
                chains_view(ret@).len() >= pre_rv.len(),
                forall|u: int|
                    0 <= u < pre_rv.len() ==> #[trigger] chains_view(ret@)[u] == pre_rv[u],
                forall|u: int|
                    pre_rv.len() <= u < chains_view(ret@).len() ==> exists|w: int|
                        0 <= w < t && #[trigger] chains_view(ret@)[u] == seq![item] + sub[w],
                forall|u: int|
                    0 <= u < ret@.len() ==> perm_of(#[trigger] chains_view(ret@)[u], sk),
                forall|u: int|
                    0 <= u < ret@.len() ==> (#[trigger] chains_view(ret@)[u]).len() >= 1,
                chains_view(ret@).no_duplicates(),
                forall|w: int|
                    0 <= w < t ==> chains_view(ret@).contains(seq![item] + #[trigger] sub[w]),
                forall|p: Seq<i32>|
                    perm_of(p, sk) && p.len() >= 1 && items@.subrange(0, idx as int).contains(
                        p[0],
                    ) ==> chains_view(ret@).contains(p),
            decreases remainder@.len() - t,
        {
            let v = &remainder[t];
            let mut nv: Vec<i32> = Vec::new();
            nv.push(item);
            let mut q: usize = 0;
            while q < v.len()
                invariant
                    q <= v@.len(),
                    nv@ == seq![item] + v@.subrange(0, q as int),
                decreases v@.len() - q,
            {
                nv.push(v[q]);
                proof {
                    assert(nv@ =~= seq![item] + v@.subrange(0, q + 1));
                }
                q = q + 1;
            }
            let ghost nc = seq![item] + sub[t as int];
            proof {
                assert(v@.subrange(0, v@.len() as int) =~= v@);
                assert(nv@ =~= nc);
                assert(perm_of(sub[t as int], sk.remove(item)));
                lemma_perm_prepend(sub[t as int], sk, item);
                assert(!chains_view(ret@).contains(nc)) by {
                    let rv = chains_view(ret@);
                    if rv.contains(nc) {
                        let u = choose|u: int| 0 <= u < rv.len() && rv[u] == nc;
                        if u < pre_rv.len() {
                            assert(items@.subrange(0, idx as int).contains(nc[0]));
                            let w = choose|w: int|
                                0 <= w < idx && #[trigger] items@.subrange(0, idx as int)[w]
                                    == nc[0];
                            assert(items@[w] == item && items@[idx as int] == item);
                        } else {
                            let w = choose|w: int|
                                0 <= w < t && #[trigger] rv[u] == seq![item] + sub[w];
                            let su = sub[w];
                            let st = sub[t as int];
                            assert(seq![item] + su == seq![item] + st);
                            assert(su =~= st) by {
                                assert(forall|z: int|
                                    0 <= z < su.len() ==> su[z] == (seq![item] + su)[z + 1]);
                                assert(forall|z: int|
                                    0 <= z < st.len() ==> st[z] == (seq![item] + st)[z + 1]);
                            }
                            assert(su == st);
                        }
                    }
                }
            }
            let ghost before = ret@;
            ret.push(nv);
            proof {
                let rv_old = chains_view(before);
                let rv_new = chains_view(ret@);
                assert(rv_new =~= rv_old.push(nc));
                assert(rv_new.no_duplicates()) by {
                    assert forall|u1: int, u2: int|
                        0 <= u1 < u2 < rv_new.len() implies rv_new[u1] != rv_new[u2] by {
                        if u2 == rv_new.len() - 1 {
                            if rv_old[u1] == nc {
                                assert(rv_old.contains(nc));
                            }
                        }
                    }
                }
                assert forall|c: Seq<i32>| rv_old.contains(c) implies rv_new.contains(c) by {
                    let u = choose|u: int| 0 <= u < rv_old.len() && rv_old[u] == c;
                    assert(rv_new[u] == c);
                }
                assert(rv_new.contains(nc)) by {
                    assert(rv_new[rv_new.len() - 1] == nc);
                }
            }
            t = t + 1;
        }
        proof {
            assert forall|p: Seq<i32>|
                perm_of(p, sk) && p.len() >= 1 && p[0] == item implies chains_view(
                ret@,
            ).contains(p) by {
                lemma_perm_first_tail(p, sk);
                let tail = p.drop_first();
                assert(perm_of(tail, sk.remove(item)));
                assert(tail.len() >= 1) by {
                    p.unique_seq_to_set();
                    assert(p.len() == sk.len());
                }
                assert(sub.contains(tail));
                let w = choose|w: int| 0 <= w < sub.len() && sub[w] == tail;
                assert(chains_view(ret@).contains(seq![item] + sub[w]));
                assert(seq![item] + tail =~= p);
            }
        }
        x.insert(item);
        proof {
            assert(x@ =~= sk);
        }
        idx = idx + 1;
        proof {
            assert(items@.subrange(0, idx as int) =~= items@.subrange(0, idx as int - 1).push(
                item,
            ));
            assert forall|p: Seq<i32>|
                perm_of(p, sk) && p.len() >= 1 && items@.subrange(0, idx as int).contains(
                p[0],
            ) implies chains_view(ret@).contains(p) by {
                let u = choose|u: int|
                    0 <= u < idx && #[trigger] items@.subrange(0, idx as int)[u] == p[0];
                if u < idx - 1 {
                    assert(items@.subrange(0, idx as int - 1)[u] == p[0]);
                }
            }
            assert forall|t: int|
                0 <= t < ret@.len() implies items@.subrange(0, idx as int).contains(
                (#[trigger] chains_view(ret@)[t])[0],
            ) && chains_view(ret@)[t].len() >= 1 by {
                let rv = chains_view(ret@);
                if t < pre_rv.len() {
                    assert(items@.subrange(0, idx as int - 1).contains(rv[t][0]));
                    let u = choose|u: int|
                        0 <= u < idx - 1 && #[trigger] items@.subrange(0, idx as int - 1)[u]
                            == rv[t][0];
                    assert(items@.subrange(0, idx as int)[u] == rv[t][0]);
                } else {
                    assert(rv[t][0] == item);
                    assert(items@.subrange(0, idx as int)[idx - 1] == item);
                }
            }
        }
    }
    proof {
        assert(items@.subrange(0, n) =~= items@);
        if sk.len() >= 1 {
            assert forall|p: Seq<i32>| perm_of(p, sk) implies chains_view(ret@).contains(p) by {
                p.unique_seq_to_set();
                assert(p.len() == sk.len());
                assert(p.to_set().contains(p[0]));
                assert(items@.contains(p[0]));
            }
        }
    }
    ret
}

/// The condition the naive all-adjacent check decides: every pair of
/// positions taken by the two nested scans sums to a perfect square.
pub open spec fn all_scanned_sums_square(s: Seq<i32>) -> bool {
    forall|i: int, j: int|
        0 <= i < s.len() - 1 && 1 <= j < s.len() ==> is_square(#[trigger] (s[i] + s[j]))
}

/// The naive check that every scanned pair of entries sums to a perfect
/// square.
#[verifier::loop_isolation(false)]
pub fn all_perfect(v: &Vec<i32>) -> (r: bool)
    requires
        v@.len() >= 1,
        vec_sums_fit(v@),
    ensures
        r == all_scanned_sums_square(v@),
{
    let mut i: usize = 0;
    while i < v.len() - 1
        invariant
            i <= v@.len() - 1,
            forall|a: int, b: int|
                0 <= a < i && 1 <= b < v@.len() ==> is_square(#[trigger] (v@[a] + v@[b])),
        decreases v@.len() - i,
    {
        let mut j: usize = 1;
        while j < v.len()
            invariant
                1 <= j <= v@.len(),
                i < v@.len() - 1,
                forall|b: int| 1 <= b < j ==> is_square(#[trigger] (v@[i as int] + v@[b])),
            decreases v@.len() - j,
        {
            if !is_perfect_sq(v[i] + v[j]) {
                return false;
            }
            j = j + 1;
        }
        i = i + 1;
    }
    true
}

/// One step of the pair enumeration: both orientations of `(s[i], s[j])`
/// when the sum is a perfect square, nothing otherwise.
pub open spec fn pair_entries(s: Seq<i32>, i: int, j: int) -> Seq<(i32, i32)> {
    if is_square(s[i] + s[j]) {
        seq![(s[i], s[j]), (s[j], s[i])]
    } else {
        Seq::empty()
    }
}

/// The pairs produced for row `i` by inner indices below `j`.
pub open spec fn row_upto(s: Seq<i32>, i: int, j: int) -> Seq<(i32, i32)>
    decreases j - i,
{
    if j <= i + 1 {
        Seq::empty()
    } else {
        row_upto(s, i, j - 1) + pair_entries(s, i, j - 1)
    }
}

/// The pairs produced by all rows below `i`, each row scanned to the end.
pub open spec fn rows_upto(s: Seq<i32>, i: int) -> Seq<(i32, i32)>
    decreases i,
{
    if i <= 0 {
        Seq::empty()
    } else {
        rows_upto(s, i - 1) + row_upto(s, i - 1, s.len() as int)
    }
}

/// Every unordered pair of distinct positions whose entries sum to a perfect
/// square, emitted in both orientations, in scan order.
pub open spec fn all_pairs_spec(s: Seq<i32>) -> Seq<(i32, i32)> {
    rows_upto(s, s.len() - 1)
}

/// Enumerates all pairs of distinct positions whose entries sum to a perfect
/// square, in both orientations.
#[verifier::loop_isolation(false)]
pub fn all_pairs(v: Vec<i32>) -> (ret: Vec<(i32, i32)>)
    requires
        v@.len() >= 1,
        vec_sums_fit(v@),
    ensures
        ret@ == all_pairs_spec(v@),
{
    let mut ret: Vec<(i32, i32)> = Vec::new();
    let mut i: usize = 0;
    proof {
        assert(ret@ =~= rows_upto(v@, 0));
    }
    while i < v.len() - 1
        invariant
            i <= v@.len() - 1,
            ret@ == rows_upto(v@, i as int),
        decreases v@.len() - i,
    {
        let mut j: usize = i + 1;
        proof {
            assert(row_upto(v@, i as int, j as int) =~= Seq::<(i32, i32)>::empty());
            assert(ret@ =~= rows_upto(v@, i as int) + row_upto(v@, i as int, j as int));
        }
        while j < v.len()
            invariant
                i < v@.len() - 1,
                i + 1 <= j <= v@.len(),
                ret@ == rows_upto(v@, i as int) + row_upto(v@, i as int, j as int),
            decreases v@.len() - j,
        {
            let ghost before = ret@;
            if is_perfect_sq(v[i] + v[j]) {
                ret.push((v[i], v[j]));
                ret.push((v[j], v[i]));
            }
            proof {
                assert(ret@ =~= before + pair_entries(v@, i as int, j as int));
                assert(ret@ =~= rows_upto(v@, i as int) + row_upto(v@, i as int, j as int + 1));
            }
            j = j + 1;
        }
        proof {
            assert(ret@ =~= rows_upto(v@, i as int + 1));
        }
        i = i + 1;
    }
    proof {
        assert(ret@ =~= all_pairs_spec(v@));
    }
    ret
}

} // verus!
