//! What a valid chain is, and what a complete answer for a subset looks
//! like. These specifications are the yardstick for the memoized search.

use vstd::prelude::*;
use crate::square::is_square;
use crate::sorted::lemma_drop_first_to_set;

verus! {

/// Every two adjacent elements of `c` sum to a perfect square.
pub open spec fn adjacent_sums_square(c: Seq<i32>) -> bool {
    forall|i: int| 0 <= i < c.len() - 1 ==> is_square(#[trigger] c[i] + c[i + 1])
}

/// `c` is a valid chain for the subset `s`: it lists every element of `s`
/// exactly once, has at least two elements, and every two adjacent elements
/// sum to a perfect square.
pub open spec fn valid_chain(c: Seq<i32>, s: Set<i32>) -> bool {
    &&& c.len() >= 2
    &&& c.no_duplicates()
    &&& c.to_set() == s
    &&& adjacent_sums_square(c)
}

/// The mathematical view of a list of chains.
pub open spec fn chains_view(v: Seq<Vec<i32>>) -> Seq<Seq<i32>> {
    v.map_values(|c: Vec<i32>| c@)
}

/// The mathematical view of one stored solution.
pub open spec fn solution_view(sol: Option<Vec<Vec<i32>>>) -> Option<Seq<Seq<i32>>> {
    match sol {
        None => None,
        Some(v) => Some(chains_view(v@)),
    }
}

/// What a correct answer for the subset `s` is: `None` exactly when no valid
/// chain exists, otherwise the complete, duplicate-free list of all valid
/// chains for `s`.
pub open spec fn solution_ok(s: Set<i32>, sol: Option<Seq<Seq<i32>>>) -> bool {
    match sol {
        None => forall|c: Seq<i32>| !valid_chain(c, s),
        Some(chains) => {
            &&& chains.len() > 0
            &&& chains.no_duplicates()
            &&& forall|i: int| 0 <= i < chains.len() ==> valid_chain(#[trigger] chains[i], s)
            &&& forall|c: Seq<i32>| valid_chain(c, s) ==> chains.contains(c)
        },
    }
}

/// The exact answer for a two-element subset `{a, b}` with `a < b`: both
/// orientations, the sorted one first, or `None` when the sum is not a
/// perfect square.
pub open spec fn pair_solution(a: i32, b: i32) -> Option<Seq<Seq<i32>>> {
    if is_square(a + b) {
        Some(seq![seq![a, b], seq![b, a]])
    } else {
        None
    }
}

/// A subset with fewer than two elements has no valid chain.
pub proof fn lemma_small_set_no_chain(s: Set<i32>)
    requires
        s.finite(),
        s.len() < 2,
    ensures
        forall|c: Seq<i32>| !valid_chain(c, s),
{
    assert forall|c: Seq<i32>| !valid_chain(c, s) by {
        if valid_chain(c, s) {
            c.unique_seq_to_set();
        }
    }
}

/// Splitting a valid chain of three or more elements: the first element is
/// in the subset, the rest is a valid chain for the subset without it, and
/// the first two elements sum to a perfect square.
pub proof fn lemma_chain_first_tail(c: Seq<i32>, s: Set<i32>)
    requires
        valid_chain(c, s),
        c.len() >= 3,
    ensures
        s.contains(c[0]),
        is_square(c[0] + c[1]),
        valid_chain(c.drop_first(), s.remove(c[0])),
{
    let t = c.drop_first();
    assert(c.to_set().contains(c[0]));
    lemma_drop_first_to_set(c);
    assert(t.no_duplicates()) by {
        assert(forall|i: int| 0 <= i < t.len() ==> t[i] == c[i + 1]);
    }
    assert(adjacent_sums_square(t)) by {
        assert forall|i: int| 0 <= i < t.len() - 1 implies is_square(#[trigger] t[i] + t[i + 1]) by {
            assert(t[i] == c[i + 1] && t[i + 1] == c[i + 2]);
            assert(is_square(c[i + 1] + c[i + 2]));
        }
    }
    assert(is_square(c[0] + c[1]));
}

/// Prepending an element to a valid chain for `s` without that element
/// yields a valid chain for `s`, provided the new first pair sums to a
/// perfect square.
pub proof fn lemma_chain_prepend(t: Seq<i32>, s: Set<i32>, e: i32)
    requires
        s.contains(e),
        valid_chain(t, s.remove(e)),
        is_square(e + t[0]),
    ensures
        valid_chain(seq![e] + t, s),
{
    let c = seq![e] + t;
    assert(c[0] == e);
    assert(forall|i: int| 1 <= i < c.len() ==> c[i] == t[i - 1]);
    assert(!t.contains(e)) by {
        if t.contains(e) {
            assert(t.to_set().contains(e));
        }
    }
    assert(c.no_duplicates()) by {
        assert forall|i: int, j: int| 0 <= i < j < c.len() implies c[i] != c[j] by {
            if i == 0 {
                assert(c[j] == t[j - 1]);
                assert(t.contains(t[j - 1]));
            }
        }
    }
    assert(c.to_set() =~= s) by {
        assert forall|y: i32| c.to_set().contains(y) implies s.contains(y) by {
            let i = choose|i: int| 0 <= i < c.len() && c[i] == y;
            if i > 0 {
                assert(t.contains(y));
                assert(t.to_set().contains(y));
            }
        }
        assert forall|y: i32| s.contains(y) implies c.to_set().contains(y) by {
            if y == e {
                assert(c.contains(c[0]));
            } else {
                assert(t.to_set().contains(y));
                let i = choose|i: int| 0 <= i < t.len() && t[i] == y;
                assert(c[i + 1] == y);
                assert(c.contains(y));
            }
        }
    }
    assert(adjacent_sums_square(c)) by {
        assert forall|i: int| 0 <= i < c.len() - 1 implies is_square(#[trigger] c[i] + c[i + 1]) by {
            if i == 0 {
                assert(c[0] + c[1] == e + t[0]);
            } else {
                assert(c[i] == t[i - 1] && c[i + 1] == t[i]);
                assert(is_square(t[i - 1] + t[i]));
            }
        }
    }
}

/// The reverse of a valid chain is a valid chain for the same subset: the
/// adjacency rule is symmetric in each pair.
pub proof fn lemma_valid_chain_reverse(c: Seq<i32>, s: Set<i32>)
    requires
        valid_chain(c, s),
    ensures
        valid_chain(c.reverse(), s),
{
    let r = c.reverse();
    let n = c.len() as int;
    assert(r.no_duplicates()) by {
        assert forall|i: int, j: int| 0 <= i < j < n implies r[i] != r[j] by {
            assert(r[i] == c[n - 1 - i] && r[j] == c[n - 1 - j]);
        }
    }
    assert(r.to_set() =~= s) by {
        assert forall|y: i32| r.to_set().contains(y) implies s.contains(y) by {
            let i = choose|i: int| 0 <= i < n && r[i] == y;
            assert(c[n - 1 - i] == y);
            assert(c.contains(y));
            assert(c.to_set().contains(y));
        }
        assert forall|y: i32| s.contains(y) implies r.to_set().contains(y) by {
            assert(c.to_set().contains(y));
            let i = choose|i: int| 0 <= i < n && c[i] == y;
            assert(r[n - 1 - i] == y);
            assert(r.contains(y));
        }
    }
    assert(adjacent_sums_square(r)) by {
        assert forall|i: int| 0 <= i < n - 1 implies is_square(#[trigger] r[i] + r[i + 1]) by {
            let j = n - 2 - i;
            assert(r[i] == c[n - 1 - i] && r[i + 1] == c[j]);
            assert(is_square(c[j] + c[j + 1]));
            assert(c[j] + c[j + 1] == r[i + 1] + r[i]);
        }
    }
}

/// In a complete answer, every chain's reverse is present as well, since
/// both directions are valid and the list is complete.
pub proof fn lemma_solution_reverse_closed(s: Set<i32>, chains: Seq<Seq<i32>>)
    requires
        solution_ok(s, Some(chains)),
    ensures
        forall|i: int| 0 <= i < chains.len() ==> chains.contains(#[trigger] chains[i].reverse()),
{
    assert forall|i: int| 0 <= i < chains.len() implies chains.contains(
        #[trigger] chains[i].reverse(),
    ) by {
        lemma_valid_chain_reverse(chains[i], s);
    }
}

/// Any two correct answers for the same subset agree: both are `None`, or
/// both list exactly the same chains. In particular, asking again can only
/// reproduce the memoized answer.
pub proof fn lemma_solution_agree(s: Set<i32>, a: Option<Seq<Seq<i32>>>, b: Option<Seq<Seq<i32>>>)
    requires
        solution_ok(s, a),
        solution_ok(s, b),
    ensures
        a is None <==> b is None,
        a is Some && b is Some ==> forall|c: Seq<i32>|
            #[trigger] (a->Some_0).contains(c) <==> (b->Some_0).contains(c),
{
    if a is Some && b is None {
        let ca = a->Some_0;
        assert(valid_chain(ca[0], s));
    }
    if a is None && b is Some {
        let cb = b->Some_0;
        assert(valid_chain(cb[0], s));
    }
    if a is Some && b is Some {
        let ca = a->Some_0;
        let cb = b->Some_0;
        assert forall|c: Seq<i32>| #[trigger] ca.contains(c) implies cb.contains(c) by {
            let t = choose|t: int| 0 <= t < ca.len() && ca[t] == c;
            assert(valid_chain(ca[t], s));
        }
        assert forall|c: Seq<i32>| #[trigger] cb.contains(c) implies ca.contains(c) by {
            let t = choose|t: int| 0 <= t < cb.len() && cb[t] == c;
            assert(valid_chain(cb[t], s));
        }
        assert forall|c: Seq<i32>| #[trigger] ca.contains(c) <==> cb.contains(c) by {}
    }
}

/// A two-element subset `{a, b}` admits exactly the chains `[a, b]` and
/// `[b, a]`, and only when `a + b` is a perfect square.
pub proof fn lemma_pair_chain_shape(c: Seq<i32>, s: Set<i32>, a: i32, b: i32)
    requires
        a != b,
        s == Set::empty().insert(a).insert(b),
        valid_chain(c, s),
    ensures
        c == seq![a, b] || c == seq![b, a],
        is_square(a + b),
{
    c.unique_seq_to_set();
    assert(s.len() == 2) by {
        assert(s =~= Set::empty().insert(a).insert(b));
    }
    assert(c.len() == 2);
    assert(c.to_set().contains(c[0]) && c.to_set().contains(c[1]));
    assert(c[0] != c[1]);
    if c[0] == a {
        assert(c =~= seq![a, b]);
    } else {
        assert(c[0] == b && c[1] == a);
        assert(c =~= seq![b, a]);
    }
    assert(is_square(c[0] + c[1]));
    assert(c[0] + c[1] == a + b);
}

/// Both orientations of a two-element subset are valid chains when the sum
/// is a perfect square.
pub proof fn lemma_pair_chain_valid(a: i32, b: i32, s: Set<i32>)
    requires
        a != b,
        s == Set::empty().insert(a).insert(b),
        is_square(a + b),
    ensures
        valid_chain(seq![a, b], s),
        valid_chain(seq![b, a], s),
{
    let c = seq![a, b];
    let d = seq![b, a];
    assert(c.to_set() =~= s) by {
        assert(c.contains(a) && c.contains(b));
        assert forall|y: i32| c.to_set().contains(y) implies s.contains(y) by {
            let i = choose|i: int| 0 <= i < 2 && c[i] == y;
        }
    }
    assert(d.to_set() =~= s) by {
        assert(d.contains(a) && d.contains(b));
        assert forall|y: i32| d.to_set().contains(y) implies s.contains(y) by {
            let i = choose|i: int| 0 <= i < 2 && d[i] == y;
        }
    }
    assert(is_square(b + a)) by {
        assert(b + a == a + b);
    }
    assert(adjacent_sums_square(c)) by {
        assert forall|i: int| 0 <= i < 1 implies is_square(#[trigger] c[i] + c[i + 1]) by {
            assert(c[0] + c[1] == a + b);
        }
    }
    assert(adjacent_sums_square(d)) by {
        assert forall|i: int| 0 <= i < 1 implies is_square(#[trigger] d[i] + d[i + 1]) by {
            assert(d[0] + d[1] == b + a);
        }
    }
}

} // verus!
