//! The memoized search engine: a table from subsets to their complete chain
//! answers, and the recursive procedure that fills it.

use vstd::prelude::*;
use vstd::set_lib::{lemma_len_subset, lemma_set_subset_finite};
use std::collections::BTreeSet;
use crate::chains::{
    chains_view, lemma_chain_first_tail, lemma_chain_prepend, lemma_pair_chain_shape,
    lemma_pair_chain_valid, lemma_small_set_no_chain, pair_solution, solution_ok, solution_view,
    valid_chain,
};
use crate::counting::{lemma_subsets_of_finite, lemma_subsets_of_monotone, pow2, subsets_of};
use crate::sorted::{
    lemma_sorted_no_duplicates, lemma_sorted_unique_by_set, sorted_strict, to_sorted_vec, vec_eq,
};
use crate::square::{is_perfect_sq, is_square};

verus! {

broadcast use vstd::std_specs::btree::group_btree_axioms, vstd::laws_cmp::group_laws_cmp;

/// The view of the memo: a map from a subset's element content to the
/// mathematical form of its stored answer.
pub type MemoView = Map<Set<i32>, Option<Seq<Seq<i32>>>>;

/// All sums of two elements of `s` fit in an `i32`.
pub open spec fn sums_fit(s: Set<i32>) -> bool {
    forall|a: i32, b: i32|
        s.contains(a) && s.contains(b) ==> i32::MIN <= #[trigger] (a + b) <= i32::MAX
}

/// Every entry of `m0` is still in `m1`, unchanged.
pub open spec fn preserves(m0: MemoView, m1: MemoView) -> bool {
    forall|k: Set<i32>| #[trigger] m0.contains_key(k) ==> m1.contains_key(k) && m1[k] == m0[k]
}

/// Every key of `m1` that is not in `m0` is a subset of `s`.
pub open spec fn new_keys_within(m0: MemoView, m1: MemoView, s: Set<i32>) -> bool {
    forall|k: Set<i32>|
        #[trigger] m1.contains_key(k) && !m0.contains_key(k) ==> k.subset_of(s)
}

/// The map described by a list of memo entries, later entries winning
/// (well-formed memos have pairwise distinct keys, so no entry shadows
/// another).
pub open spec fn entries_map(s: Seq<(Vec<i32>, Option<Vec<Vec<i32>>>)>) -> MemoView
    decreases s.len(),
{
    if s.len() == 0 {
        Map::empty()
    } else {
        entries_map(s.drop_last()).insert(s.last().0@.to_set(), solution_view(s.last().1))
    }
}

proof fn lemma_entries_map_props(s: Seq<(Vec<i32>, Option<Vec<Vec<i32>>>)>)
    requires
        forall|i: int, j: int|
            0 <= i < j < s.len() ==> (#[trigger] s[i]).0@.to_set() != (#[trigger] s[j]).0@.to_set(),
    ensures
        entries_map(s).dom().finite(),
        entries_map(s).dom().len() == s.len(),
        forall|i: int|
            0 <= i < s.len() ==> entries_map(s).contains_key((#[trigger] s[i]).0@.to_set())
                && entries_map(s)[s[i].0@.to_set()] == solution_view(s[i].1),
        forall|k: Set<i32>|
            #[trigger] entries_map(s).contains_key(k) ==> exists|i: int|
                0 <= i < s.len() && (#[trigger] s[i]).0@.to_set() == k,
    decreases s.len(),
{
    if s.len() == 0 {
        assert(entries_map(s).dom() =~= Set::<Set<i32>>::empty());
    } else {
        let pre = s.drop_last();
        assert(forall|i: int| 0 <= i < pre.len() ==> pre[i] == s[i]);
        lemma_entries_map_props(pre);
        let k_last = s.last().0@.to_set();
        assert(!entries_map(pre).contains_key(k_last)) by {
            if entries_map(pre).contains_key(k_last) {
                let i = choose|i: int|
                    0 <= i < pre.len() && (#[trigger] pre[i]).0@.to_set() == k_last;
                assert(s[i].0@.to_set() != s[s.len() - 1].0@.to_set());
            }
        }
        assert(entries_map(s).dom() =~= entries_map(pre).dom().insert(k_last));
        assert forall|k: Set<i32>| #[trigger] entries_map(s).contains_key(k) implies exists|i: int|
            0 <= i < s.len() && (#[trigger] s[i]).0@.to_set() == k by {
            if k == k_last {
                assert((s[s.len() - 1]).0@.to_set() == k);
            } else {
                let i = choose|i: int|
                    0 <= i < pre.len() && (#[trigger] pre[i]).0@.to_set() == k;
                assert((s[i]).0@.to_set() == k);
            }
        }
    }
}

/// The memoized search engine. It owns the table from subsets to answers;
/// the table only ever grows, and every stored answer is correct for its
/// key.
pub struct ChainMemo {
    entries: Vec<(Vec<i32>, Option<Vec<Vec<i32>>>)>,
}

impl View for ChainMemo {
    type V = MemoView;

    closed spec fn view(&self) -> MemoView {
        entries_map(self.entries@)
    }
}

impl ChainMemo {
    /// Internal invariant: keys are sorted and pairwise distinct, every
    /// stored answer is correct for its key, and two-element keys store
    /// exactly the sorted orientation first.
    pub closed spec fn wf(&self) -> bool {
        &&& forall|i: int|
            0 <= i < self.entries@.len() ==> sorted_strict((#[trigger] self.entries@[i]).0@)
        &&& forall|i: int, j: int|
            0 <= i < j < self.entries@.len() ==> (#[trigger] self.entries@[i]).0@.to_set() != (
            #[trigger] self.entries@[j]).0@.to_set()
        &&& forall|i: int|
            0 <= i < self.entries@.len() ==> solution_ok(
                (#[trigger] self.entries@[i]).0@.to_set(),
                solution_view(self.entries@[i].1),
            )
        &&& forall|i: int|
            0 <= i < self.entries@.len() && (#[trigger] self.entries@[i]).0@.len() == 2
                ==> solution_view(self.entries@[i].1) == pair_solution(
                self.entries@[i].0@[0],
                self.entries@[i].0@[1],
            )
    }

    /// A well-formed memo has a finite key set and every stored answer is
    /// correct for its key.
    pub proof fn lemma_wf_facts(&self)
        requires
            self.wf(),
        ensures
            self@.dom().finite(),
            forall|k: Set<i32>|
                #[trigger] self@.contains_key(k) ==> solution_ok(k, self@[k]),
    {
        lemma_entries_map_props(self.entries@);
        assert forall|k: Set<i32>| #[trigger] self@.contains_key(k) implies solution_ok(
            k,
            self@[k],
        ) by {
            let i = choose|i: int|
                0 <= i < self.entries@.len() && (#[trigger] self.entries@[i]).0@.to_set() == k;
            assert(self@[k] == solution_view(self.entries@[i].1));
        }
    }

    /// An empty memo.
    pub fn new() -> (m: ChainMemo)
        ensures
            m.wf(),
            m@ == MemoView::empty(),
            m@.dom().len() == 0,
    {
        let m = ChainMemo { entries: Vec::new() };
        proof {
            assert(m@.dom() =~= Set::<Set<i32>>::empty());
        }
        m
    }

    /// The number of subsets with a stored answer.
    pub fn len(&self) -> (n: usize)
        requires
            self.wf(),
        ensures
            n == self@.dom().len(),
    {
        proof {
            lemma_entries_map_props(self.entries@);
        }
        self.entries.len()
    }

    #[verifier::loop_isolation(false)]
    fn find_entry(&self, key: &Vec<i32>) -> (r: Option<usize>)
        requires
            self.wf(),
            sorted_strict(key@),
        ensures
            match r {
                Some(i) => 0 <= i < self.entries@.len() && self.entries@[i as int].0@ == key@
                    && self@.contains_key(key@.to_set()) && self@[key@.to_set()] == solution_view(
                    self.entries@[i as int].1,
                ),
                None => !self@.contains_key(key@.to_set()),
            },
    {
        proof {
            lemma_entries_map_props(self.entries@);
        }
        let mut i: usize = 0;
        while i < self.entries.len()
            invariant
                i <= self.entries@.len(),
                forall|j: int| 0 <= j < i ==> (#[trigger] self.entries@[j]).0@ != key@,
            decreases self.entries@.len() - i,
        {
            if vec_eq(&self.entries[i].0, key) {
                proof {
                    assert(self.entries@[i as int].0@.to_set() == key@.to_set());
                    assert(self@.contains_key(self.entries@[i as int].0@.to_set())
                        && self@[self.entries@[i as int].0@.to_set()] == solution_view(
                        self.entries@[i as int].1,
                    ));
                }
                return Some(i);
            }
            i = i + 1;
        }
        proof {
            assert forall|j: int| 0 <= j < self.entries@.len() implies (
            #[trigger] self.entries@[j]).0@.to_set() != key@.to_set() by {
                if self.entries@[j].0@.to_set() == key@.to_set() {
                    lemma_sorted_unique_by_set(self.entries@[j].0@, key@);
                }
            }
            if self@.contains_key(key@.to_set()) {
                let i = choose|i: int|
                    0 <= i < self.entries@.len() && (#[trigger] self.entries@[i]).0@.to_set()
                        == key@.to_set();
            }
        }
        None
    }

    fn insert_entry(&mut self, key: Vec<i32>, sol: Option<Vec<Vec<i32>>>)
        requires
            old(self).wf(),
            sorted_strict(key@),
            !old(self)@.contains_key(key@.to_set()),
            solution_ok(key@.to_set(), solution_view(sol)),
            key@.len() == 2 ==> solution_view(sol) == pair_solution(key@[0], key@[1]),
        ensures
            final(self).wf(),
            final(self)@ == old(self)@.insert(key@.to_set(), solution_view(sol)),
    {
        proof {
            lemma_entries_map_props(old(self).entries@);
        }
        let ghost old_entries = self.entries@;
        self.entries.push((key, sol));
        proof {
            assert(self.entries@.drop_last() =~= old_entries);
            assert(self.entries@.last() == self.entries@[old_entries.len() as int]);
            assert(self@ == old(self)@.insert(key@.to_set(), solution_view(sol)));
            assert forall|i: int, j: int| 0 <= i < j < self.entries@.len() implies (
            #[trigger] self.entries@[i]).0@.to_set() != (#[trigger] self.entries@[j]).0@.to_set()
                by {
                if j == self.entries@.len() - 1 {
                    assert(old(self)@.contains_key(old_entries[i].0@.to_set()));
                }
            }
        }
    }
}

/// When a computation step adds only keys drawn from `s_all`, the pool of
/// subsets of `s_all` still missing from the table shrinks by exactly the
/// number of added keys.
proof fn lemma_capacity_step(s_all: Set<Set<i32>>, d0: Set<Set<i32>>, d1: Set<Set<i32>>)
    requires
        s_all.finite(),
        d0.finite(),
        d1.finite(),
        d0.subset_of(d1),
        forall|k: Set<i32>| d1.contains(k) && !d0.contains(k) ==> s_all.contains(k),
    ensures
        s_all.difference(d1).len() as int <= s_all.difference(d0).len() - (d1.len() - d0.len()),
{
    let n = d1.difference(d0);
    let a = s_all.difference(d0);
    assert(n.subset_of(a));
    assert(a.finite()) by {
        lemma_set_subset_finite(s_all, a);
    }
    assert(d1 =~= d0.union(n));
    assert(d0.disjoint(n));
    vstd::set_lib::lemma_set_disjoint_lens(d0, n);
    assert(a =~= a.difference(n).union(n));
    assert(a.difference(n).disjoint(n));
    assert(a.difference(n).finite()) by {
        lemma_set_subset_finite(a, a.difference(n));
    }
    assert(n.finite()) by {
        lemma_set_subset_finite(a, n);
    }
    vstd::set_lib::lemma_set_disjoint_lens(a.difference(n), n);
    assert(s_all.difference(d1) =~= a.difference(n));
}

/// In a well-formed memo, the stored answer for a two-element subset
/// `{a, b}` with `a < b` is exactly `pair_solution(a, b)`.
proof fn lemma_two_elem_value(m: &ChainMemo, a: i32, b: i32)
    requires
        m.wf(),
        a < b,
        m@.contains_key(Set::<i32>::empty().insert(a).insert(b)),
    ensures
        m@[Set::<i32>::empty().insert(a).insert(b)] == pair_solution(a, b),
{
    let sk = Set::<i32>::empty().insert(a).insert(b);
    lemma_entries_map_props(m.entries@);
    let i = choose|i: int|
        0 <= i < m.entries@.len() && (#[trigger] m.entries@[i]).0@.to_set() == sk;
    let ab = seq![a, b];
    assert(sorted_strict(ab));
    assert(ab.to_set() =~= sk) by {
        assert(ab.contains(a) && ab.contains(b));
        assert forall|y: i32| ab.to_set().contains(y) implies sk.contains(y) by {
            let t = choose|t: int| 0 <= t < 2 && ab[t] == y;
        }
    }
    lemma_sorted_unique_by_set(m.entries@[i].0@, ab);
    assert(m.entries@[i].0@.len() == 2);
    assert(m@[sk] == solution_view(m.entries@[i].1));
}

impl ChainMemo {
    /// Computes (or recalls) the complete answer for `set@`: `None` when no
    /// valid chain covers the subset, otherwise the full list of valid
    /// chains. The memo only grows, existing entries never change, and the
    /// counter advances by exactly the number of newly computed subsets —
    /// zero when the answer was already memoized.
    pub fn solve(&mut self, set: &BTreeSet<i32>, count: &mut i32) -> (sol: Option<Vec<Vec<i32>>>)
        requires
            old(self).wf(),
            sums_fit(set@),
            *old(count) as int + set@.len() as int + 1 + pow2(set@.len()) <= i32::MAX as int,
        ensures
            final(self).wf(),
            final(self)@.dom().finite(),
            old(self)@.dom().finite(),
            final(self)@.contains_key(set@),
            solution_view(sol) == final(self)@[set@],
            solution_ok(set@, solution_view(sol)),
            preserves(old(self)@, final(self)@),
            new_keys_within(old(self)@, final(self)@, set@),
            final(self)@.dom().len() >= old(self)@.dom().len(),
            *final(count) as int == *old(count) as int + final(self)@.dom().len() - old(
                self,
            )@.dom().len(),
            old(self)@.contains_key(set@) ==> final(self)@ == old(self)@ && *final(count) == *old(
                count,
            ),
            set@.len() < 2 ==> sol is None,
            forall|a: i32, b: i32|
                a < b && set@ == Set::<i32>::empty().insert(a).insert(b) ==> solution_view(sol)
                    == pair_solution(a, b),
    {
        let key = to_sorted_vec(set);
        proof {
            self.lemma_wf_facts();
            lemma_subsets_of_finite(set@);
            let s_all = subsets_of(set@);
            let diff = s_all.difference(self@.dom());
            lemma_set_subset_finite(s_all, diff);
            lemma_len_subset(diff, s_all);
        }
        let ghost m0 = self@;
        make_map(set, self, count);
        proof {
            self.lemma_wf_facts();
            assert(m0.dom().subset_of(self@.dom())) by {
                assert forall|k: Set<i32>| #[trigger] m0.dom().contains(k) implies self@
                    .dom().contains(k) by {
                    assert(m0.contains_key(k));
                }
            }
            lemma_len_subset(m0.dom(), self@.dom());
        }
        let found = self.find_entry(&key);
        let fi: usize = match found {
            Some(fi) => fi,
            None => {
                proof {
                    assert(self@.contains_key(key@.to_set()));
                    assert(false);
                }
                0
            },
        };
        let sol = match &self.entries[fi].1 {
            None => None,
            Some(v) => Some(clone_chains(v)),
        };
        sol
    }
}

/// Copies a vector of integers.
fn clone_ints(v: &Vec<i32>) -> (r: Vec<i32>)
    ensures
        r@ == v@,
{
    let mut r: Vec<i32> = Vec::new();
    let mut i: usize = 0;
    while i < v.len()
        invariant
            i <= v@.len(),
            r@ == v@.subrange(0, i as int),
        decreases v@.len() - i,
    {
        r.push(v[i]);
        proof {
            assert(r@ =~= v@.subrange(0, i + 1));
        }
        i = i + 1;
    }
    proof {
        assert(r@ =~= v@);
    }
    r
}

/// Copies a list of chains.
fn clone_chains(v: &Vec<Vec<i32>>) -> (r: Vec<Vec<i32>>)
    ensures
        chains_view(r@) == chains_view(v@),
{
    let mut r: Vec<Vec<i32>> = Vec::new();
    let mut i: usize = 0;
    while i < v.len()
        invariant
            i <= v@.len(),
            r@.len() == i,
            forall|j: int| 0 <= j < i ==> (#[trigger] r@[j])@ == v@[j]@,
        decreases v@.len() - i,
    {
        let c = clone_ints(&v[i]);
        r.push(c);
        i = i + 1;
    }
    proof {
        assert(chains_view(r@) =~= chains_view(v@));
    }
    r
}

/// The memoized recursive search. After the call the memo holds the
/// complete, correct answer for `set@`; every entry that was already stored
/// is untouched; every key added is a subset of `set@`; and the counter
/// grows by exactly the number of newly computed subsets — in particular not
/// at all when the answer was already memoized.
#[verifier::loop_isolation(false)]
#[verifier::rlimit(100)]
pub fn make_map(set: &BTreeSet<i32>, map: &mut ChainMemo, count: &mut i32)
    requires
        old(map).wf(),
        sums_fit(set@),
        *old(count) as int + set@.len() as int + 1 + subsets_of(set@).difference(
            old(map)@.dom(),
        ).len() as int <= i32::MAX as int,
    ensures
        final(map).wf(),
        final(map)@.dom().finite(),
        old(map)@.dom().finite(),
        final(map)@.contains_key(set@),
        solution_ok(set@, final(map)@[set@]),
        preserves(old(map)@, final(map)@),
        new_keys_within(old(map)@, final(map)@, set@),
        *final(count) as int == *old(count) as int + final(map)@.dom().len() - old(
            map,
        )@.dom().len(),
        old(map)@.contains_key(set@) ==> final(map)@ == old(map)@ && *final(count) == *old(count),
        set@.len() < 2 ==> final(map)@[set@] is None,
        forall|a: i32, b: i32|
            a < b && set@ == Set::<i32>::empty().insert(a).insert(b) ==> final(map)@[set@]
                == pair_solution(a, b),
    decreases set@.len(),
{
    let ghost sk = set@;
    let ghost m0 = map@;
    let key: Vec<i32> = to_sorted_vec(set);
    proof {
        map.lemma_wf_facts();
        lemma_entries_map_props(map.entries@);
        lemma_sorted_no_duplicates(key@);
    }
    let hit = map.find_entry(&key);
    if hit.is_some() {
        proof {
            assert(map@.contains_key(sk));
            assert(solution_ok(sk, map@[sk]));
            if sk.len() < 2 {
                lemma_small_set_no_chain(sk);
                if map@[sk] is Some {
                    let chains = map@[sk]->Some_0;
                    assert(valid_chain(chains[0], sk));
                }
            }
            assert forall|a: i32, b: i32|
                a < b && sk == Set::<i32>::empty().insert(a).insert(b) implies map@[sk]
                == pair_solution(a, b) by {
                lemma_two_elem_value(map, a, b);
            }
        }
        return ;
    }
    proof {
        assert(!map@.contains_key(sk));
    }
    *count = *count + 1;
    let n = key.len();
    let mut solution_list: Vec<Vec<i32>> = Vec::new();
    proof {
        assert(chains_view(solution_list@) =~= Seq::<Seq<i32>>::empty());
    }
    if n == 2 {
        let a = key[0];
        let b = key[1];
        proof {
            assert(a < b);
            assert(key@.contains(a) && key@.contains(b));
            assert(sk.contains(a) && sk.contains(b));
            assert(sk =~= Set::<i32>::empty().insert(a).insert(b)) by {
                assert forall|y: i32| sk.contains(y) implies y == a || y == b by {
                    let t = choose|t: int| 0 <= t < key@.len() && key@[t] == y;
                }
            }
        }
        if is_perfect_sq(a + b) {
            let mut c1: Vec<i32> = Vec::new();
            c1.push(a);
            c1.push(b);
            let mut c2: Vec<i32> = Vec::new();
            c2.push(b);
            c2.push(a);
            solution_list.push(c1);
            solution_list.push(c2);
            proof {
                assert(c1@ =~= seq![a, b]);
                assert(c2@ =~= seq![b, a]);
                lemma_pair_chain_valid(a, b, sk);
                assert(chains_view(solution_list@) =~= seq![seq![a, b], seq![b, a]]);
            }
        } else {
            proof {
                assert forall|c: Seq<i32>| !valid_chain(c, sk) by {
                    if valid_chain(c, sk) {
                        lemma_pair_chain_shape(c, sk, a, b);
                    }
                }
            }
        }
        proof {
            let cv = chains_view(solution_list@);
            if is_square(a + b) {
                assert(solution_ok(sk, Some(cv))) by {
                    assert(cv[0] == seq![a, b] && cv[1] == seq![b, a]);
                    assert(cv.no_duplicates()) by {
                        assert(cv[0][0] == a && cv[1][0] == b);
                    }
                    assert forall|c: Seq<i32>| valid_chain(c, sk) implies cv.contains(c) by {
                        lemma_pair_chain_shape(c, sk, a, b);
                    }
                }
            }
        }
    } else if n >= 3 {
        let mut local: BTreeSet<i32> = set.clone();
        let mut idx: usize = 0;
        proof {
            lemma_subsets_of_finite(sk);
            assert(key@.subrange(0, 0) =~= Seq::<i32>::empty());
        }
        while idx < key.len()
            invariant
                idx <= key@.len(),
                local@ == sk,
                map.wf(),
                map@.dom().finite(),
                preserves(m0, map@),
                new_keys_within(m0, map@, sk),
                !map@.contains_key(sk),
                *count as int == *old(count) as int + 1 + map@.dom().len() - m0.dom().len(),
                *count as int + sk.len() as int + subsets_of(sk).difference(map@.dom()).len()
                    as int <= i32::MAX as int,
                forall|t: int|
                    0 <= t < solution_list@.len() ==> valid_chain(
                        #[trigger] chains_view(solution_list@)[t],
                        sk,
                    ),
                forall|t: int|
                    0 <= t < solution_list@.len() ==> key@.subrange(0, idx as int).contains(
                        (#[trigger] chains_view(solution_list@)[t])[0],
                    ),
                chains_view(solution_list@).no_duplicates(),
                forall|c: Seq<i32>|
                    valid_chain(c, sk) && key@.subrange(0, idx as int).contains(c[0])
                        ==> chains_view(solution_list@).contains(c),
            decreases key@.len() - idx,
        {
            let item = key[idx];
            proof {
                assert(key@.contains(item));
                assert(sk.contains(item));
            }
            let ghost m_before = map@;
            local.remove(&item);
            proof {
                assert(local@ == sk.remove(item));
                assert(local@.len() == sk.len() - 1);
                assert(sums_fit(local@)) by {
                    assert forall|x: i32, y: i32|
                        local@.contains(x) && local@.contains(y) implies i32::MIN <= #[trigger] (x
                        + y) <= i32::MAX by {
                        assert(sk.contains(x) && sk.contains(y));
                    }
                }
                lemma_subsets_of_monotone(local@, sk);
                let s_all = subsets_of(sk);
                let s_loc = subsets_of(local@);
                lemma_set_subset_finite(s_all, s_all.difference(map@.dom()));
                assert(s_loc.difference(map@.dom()).subset_of(s_all.difference(map@.dom())));
                lemma_len_subset(s_loc.difference(map@.dom()), s_all.difference(map@.dom()));
            }
            make_map(&local, map, count);
            proof {
                let s_all = subsets_of(sk);
                assert(preserves(m0, map@)) by {
                    assert forall|k: Set<i32>| #[trigger] m0.contains_key(k) implies map@
                        .contains_key(k) && map@[k] == m0[k] by {
                        assert(m_before.contains_key(k) && m_before[k] == m0[k]);
                    }
                }
                assert(new_keys_within(m0, map@, sk)) by {
                    assert forall|k: Set<i32>|
                        #[trigger] map@.contains_key(k) && !m0.contains_key(k) implies k.subset_of(
                        sk,
                    ) by {
                        if m_before.contains_key(k) {
                        } else {
                            assert(k.subset_of(local@));
                        }
                    }
                }
                assert(!map@.contains_key(sk)) by {
                    if map@.contains_key(sk) {
                        assert(sk.subset_of(local@));
                        assert(local@.contains(item));
                    }
                }
                assert(m_before.dom().subset_of(map@.dom())) by {
                    assert forall|k: Set<i32>| #[trigger] m_before.dom().contains(k) implies map@
                        .dom().contains(k) by {
                        assert(m_before.contains_key(k));
                    }
                }
                lemma_capacity_step(s_all, m_before.dom(), map@.dom());
            }
            let rest_key = to_sorted_vec(&local);
            proof {
                map.lemma_wf_facts();
            }
            let found = map.find_entry(&rest_key);
            proof {
                if found is None {
                    assert(map@.contains_key(local@));
                    assert(false);
                }
            }
            let fi: usize = match found {
                Some(fi) => fi,
                None => {
                    proof {
                        assert(false);
                    }
                    0
                },
            };
            let ghost pre_cv = chains_view(solution_list@);
            match &map.entries[fi].1 {
                None => {
                    proof {
                        assert(map@[local@] is None);
                        assert(solution_ok(local@, None::<Seq<Seq<i32>>>));
                        assert forall|c: Seq<i32>|
                            valid_chain(c, sk) && c[0] == item implies chains_view(
                            solution_list@,
                        ).contains(c) by {
                            c.unique_seq_to_set();
                            assert(c.len() == sk.len());
                            lemma_chain_first_tail(c, sk);
                            assert(valid_chain(c.drop_first(), local@));
                        }
                    }
                },
                Some(solution) => {
                    let ghost sub_cv = chains_view(solution@);
                    proof {
                        assert(map@[local@] == Some(sub_cv));
                        assert(solution_ok(local@, Some(sub_cv)));
                    }
                    let mut j: usize = 0;
                    while j < solution.len()
                        invariant
                            j <= solution@.len(),
                            chains_view(solution_list@).len() >= pre_cv.len(),
                            forall|t: int|
                                0 <= t < pre_cv.len() ==> #[trigger] chains_view(solution_list@)[t]
                                    == pre_cv[t],
                            forall|t: int|
                                pre_cv.len() <= t < chains_view(solution_list@).len()
                                    ==> exists|u: int|
                                    0 <= u < j && #[trigger] chains_view(solution_list@)[t]
                                        == seq![item] + sub_cv[u],
                            forall|t: int|
                                0 <= t < solution_list@.len() ==> valid_chain(
                                    #[trigger] chains_view(solution_list@)[t],
                                    sk,
                                ),
                            chains_view(solution_list@).no_duplicates(),
                            forall|u: int|
                                0 <= u < j && is_square(item + (#[trigger] sub_cv[u])[0])
                                    ==> chains_view(solution_list@).contains(seq![item] + sub_cv[u]),
                            forall|c: Seq<i32>|
                                valid_chain(c, sk) && key@.subrange(0, idx as int).contains(c[0])
                                    ==> chains_view(solution_list@).contains(c),
                        decreases solution@.len() - j,
                    {
                        let vector = &solution[j];
                        proof {
                            assert(vector@ == sub_cv[j as int]);
                            assert(valid_chain(sub_cv[j as int], local@));
                            assert(vector@.contains(vector@[0]));
                            assert(local@.contains(vector@[0]));
                            assert(sk.contains(vector@[0]));
                        }
                        if is_perfect_sq(item + vector[0]) {
                            let mut new_solution = clone_ints(vector);
                            new_solution.insert(0, item);
                            let ghost nc = seq![item] + sub_cv[j as int];
                            proof {
                                assert(new_solution@ =~= nc);
                                lemma_chain_prepend(vector@, sk, item);
                                assert(valid_chain(nc, sk));
                                assert(!chains_view(solution_list@).contains(nc)) by {
                                    let cv = chains_view(solution_list@);
                                    if cv.contains(nc) {
                                        let t = choose|t: int| 0 <= t < cv.len() && cv[t] == nc;
                                        if t < pre_cv.len() {
                                            assert(key@.subrange(0, idx as int).contains(nc[0]));
                                            let u = choose|u: int|
                                                0 <= u < idx && key@.subrange(0, idx as int)[u]
                                                    == nc[0];
                                            assert(key@[u] == item && key@[idx as int] == item);
                                        } else {
                                            let u = choose|u: int|
                                                0 <= u < j && #[trigger] cv[t] == seq![item]
                                                    + sub_cv[u];
                                            let su = sub_cv[u];
                                            let sj = sub_cv[j as int];
                                            assert(seq![item] + su == seq![item] + sj);
                                            assert(su =~= sj) by {
                                                assert(forall|p: int|
                                                    0 <= p < su.len() ==> su[p] == (seq![item]
                                                        + su)[p + 1]);
                                                assert(forall|p: int|
                                                    0 <= p < sj.len() ==> sj[p] == (seq![item]
                                                        + sj)[p + 1]);
                                            }
                                            assert(su == sj);
                                        }
                                    }
                                }
                            }
                            let ghost before = solution_list@;
                            solution_list.push(new_solution);
                            proof {
                                let cv_old = chains_view(before);
                                let cv_new = chains_view(solution_list@);
                                assert(cv_new =~= cv_old.push(nc));
                                assert(cv_new.no_duplicates()) by {
                                    assert forall|t1: int, t2: int|
                                        0 <= t1 < t2 < cv_new.len() implies cv_new[t1]
                                        != cv_new[t2] by {
                                        if t2 == cv_new.len() - 1 {
                                            if cv_old[t1] == nc {
                                                assert(cv_old.contains(nc));
                                            }
                                        }
                                    }
                                }
                                assert forall|c: Seq<i32>| cv_old.contains(c) implies cv_new
                                    .contains(c) by {
                                    let t = choose|t: int| 0 <= t < cv_old.len() && cv_old[t] == c;
                                    assert(cv_new[t] == c);
                                }
                                assert(cv_new.contains(nc)) by {
                                    assert(cv_new[cv_new.len() - 1] == nc);
                                }
                            }
                        }
                        j = j + 1;
                    }
                    proof {
                        assert forall|c: Seq<i32>|
                            valid_chain(c, sk) && c[0] == item implies chains_view(
                            solution_list@,
                        ).contains(c) by {
                            c.unique_seq_to_set();
                            assert(c.len() == sk.len());
                            lemma_chain_first_tail(c, sk);
                            let t = c.drop_first();
                            assert(valid_chain(t, local@));
                            assert(sub_cv.contains(t));
                            let u = choose|u: int| 0 <= u < sub_cv.len() && sub_cv[u] == t;
                            assert(t[0] == c[1]);
                            assert(is_square(item + sub_cv[u][0]));
                            assert(chains_view(solution_list@).contains(seq![item] + sub_cv[u]));
                            assert(seq![item] + t =~= c);
                        }
                    }
                },
            }
            local.insert(item);
            proof {
                assert(local@ =~= sk);
            }
            idx = idx + 1;
            proof {
                assert(key@.subrange(0, idx as int) =~= key@.subrange(0, idx as int - 1).push(
                    item,
                ));
                assert forall|c: Seq<i32>|
                    valid_chain(c, sk) && key@.subrange(0, idx as int).contains(c[0])
                        implies chains_view(solution_list@).contains(c) by {
                    let u = choose|u: int|
                        0 <= u < idx && key@.subrange(0, idx as int)[u] == c[0];
                    if u < idx - 1 {
                        assert(key@.subrange(0, idx as int - 1)[u] == c[0]);
                    } else {
                        assert(c[0] == item);
                    }
                }
                assert forall|t: int|
                    0 <= t < solution_list@.len() implies key@.subrange(0, idx as int).contains(
                    (#[trigger] chains_view(solution_list@)[t])[0],
                ) by {
                    let cv = chains_view(solution_list@);
                    if t < pre_cv.len() {
                        assert(key@.subrange(0, idx as int - 1).contains(cv[t][0]));
                        let u = choose|u: int|
                            0 <= u < idx - 1 && #[trigger] key@.subrange(0, idx as int - 1)[u]
                                == cv[t][0];
                        assert(key@.subrange(0, idx as int)[u] == cv[t][0]);
                    } else {
                        assert(cv[t][0] == item);
                        assert(key@.subrange(0, idx as int)[idx - 1] == item);
                    }
                }
            }
        }
        proof {
            assert(key@.subrange(0, key@.len() as int) =~= key@);
        }
    } else {
        proof {
            lemma_small_set_no_chain(sk);
        }
    }
    // Freeze the accumulated list as this subset's answer.
    let ghost gkey = key@;
    let ghost m1 = map@;
    let ghost cv = chains_view(solution_list@);
    proof {
        assert(gkey.to_set() == sk);
        if n >= 3 {
            assert forall|c: Seq<i32>| valid_chain(c, sk) implies cv.contains(c) by {
                assert(c.to_set().contains(c[0]));
                assert(sk.contains(c[0]));
                assert(key@.contains(c[0]));
            }
        }
    }
    if solution_list.len() == 0 {
        proof {
            assert forall|c: Seq<i32>| !valid_chain(c, sk) by {
                if valid_chain(c, sk) && n >= 3 {
                    assert(cv.contains(c));
                }
            }
            assert(solution_ok(sk, solution_view(None::<Vec<Vec<i32>>>)));
        }
        map.insert_entry(key, None);
    } else {
        proof {
            assert(solution_ok(sk, Some(cv)));
            assert(solution_view(Some(solution_list)) == Some(cv));
        }
        map.insert_entry(key, Some(solution_list));
    }
    proof {
        lemma_entries_map_props(map.entries@);
        assert(map@ == m1.insert(sk, map@[sk]));
        assert(map@.dom() =~= m1.dom().insert(sk));
        assert(!m1.contains_key(sk));
        assert(map@.dom().len() == m1.dom().len() + 1);
        assert(preserves(m0, map@)) by {
            assert forall|k: Set<i32>| #[trigger] m0.contains_key(k) implies map@.contains_key(k)
                && map@[k] == m0[k] by {
                assert(m1.contains_key(k) && m1[k] == m0[k]);
                assert(k != sk);
            }
        }
        assert(solution_ok(sk, map@[sk]));
        if sk.len() < 2 {
            lemma_small_set_no_chain(sk);
            if map@[sk] is Some {
                let chains = map@[sk]->Some_0;
                assert(valid_chain(chains[0], sk));
            }
        }
        assert forall|a: i32, b: i32|
            a < b && sk == Set::<i32>::empty().insert(a).insert(b) implies map@[sk]
            == pair_solution(a, b) by {
            lemma_two_elem_value(map, a, b);
        }
    }
}

} // verus!
