//! The perfect-square predicate, plus the two membership-test variants kept
//! around for comparing data structures.

use vstd::prelude::*;
use std::collections::{BTreeMap, BTreeSet};

verus! {

broadcast use vstd::std_specs::btree::group_btree_axioms, vstd::laws_cmp::group_laws_cmp;

/// `n` is the square of some (non-negative) integer.
pub open spec fn is_square(n: int) -> bool {
    exists|k: int| 0 <= k && #[trigger] (k * k) == n
}

/// Negative numbers are never perfect squares.
pub proof fn lemma_negative_not_square(n: int)
    requires
        n < 0,
    ensures
        !is_square(n),
{
    assert forall|k: int| 0 <= k implies #[trigger] (k * k) != n by {
        assert(k * k >= 0) by (nonlinear_arith);
    }
}

/// Decides whether `x` is a perfect square; always false for negative `x`.
/// The decision is exact over the whole `i32` range.
pub fn is_perfect_sq(x: i32) -> (r: bool)
    ensures
        r == is_square(x as int),
{
    if x < 0 {
        proof {
            lemma_negative_not_square(x as int);
        }
        return false;
    }
    let n = x as u64;
    let mut k: u64 = 0;
    while (k + 1) * (k + 1) <= n
        invariant
            n == x as int,
            0 <= x,
            k * k <= n,
            k <= 46340,
            (k + 1) * (k + 1) <= 0xffff_ffffu64,
        decreases n - k * k,
    {
        proof {
            // 46341^2 exceeds every i32, so the guard rules that root out.
            assert((k + 1) * (k + 1) <= n && n <= 0x7fff_ffff ==> k + 1 <= 46340)
                by (nonlinear_arith);
            assert(k * k < (k + 1) * (k + 1)) by (nonlinear_arith);
            assert(k + 1 <= 46340 ==> (k + 2) * (k + 2) <= 0xffff_ffffu64)
                by (nonlinear_arith);
        }
        k = k + 1;
    }
    let r = k * k == n;
    proof {
        if r {
            assert(0 <= k as int && (k as int) * (k as int) == x as int);
        } else {
            assert(!is_square(x as int)) by {
                if is_square(x as int) {
                    let j = choose|j: int| 0 <= j && #[trigger] (j * j) == x as int;
                    assert(j <= k ==> j * j <= (k as int) * (k as int)) by (nonlinear_arith)
                        requires 0 <= j, 0 <= k;
                    assert(j > k ==> j * j >= (k as int + 1) * (k as int + 1)) by (nonlinear_arith)
                        requires 0 <= k;
                }
            }
        }
    }
    r
}

/// Membership test backed by an ordered set (kept for comparing structures).
pub fn set_perfect(x: i32, map: &BTreeSet<i32>) -> (r: bool)
    ensures
        r == map@.contains(x),
{
    map.contains(&x)
}

/// Membership test backed by an ordered map (kept for comparing structures).
pub fn map_perfect(x: i32, map: &BTreeMap<i32, i32>) -> (r: bool)
    ensures
        r == map@.dom().contains(x),
{
    map.contains_key(&x)
}

} // verus!
