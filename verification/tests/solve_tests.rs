use std::collections::BTreeSet;
use square_chains::memo::{make_map, ChainMemo};
use square_chains::square::is_perfect_sq;

fn set_of(xs: &[i32]) -> BTreeSet<i32> {
    let mut s = BTreeSet::new();
    for &x in xs {
        s.insert(x);
    }
    s
}

#[test]
fn empty_set_is_none() {
    let mut memo = ChainMemo::new();
    let mut count: i32 = 0;
    let sol = memo.solve(&set_of(&[]), &mut count);
    assert_eq!(sol, None);
    assert_eq!(count, 1);
}

#[test]
fn singleton_is_none() {
    let mut memo = ChainMemo::new();
    let mut count: i32 = 0;
    assert_eq!(memo.solve(&set_of(&[4]), &mut count), None);
    assert_eq!(memo.solve(&set_of(&[-3]), &mut count), None);
}

#[test]
fn pair_one_two_is_none() {
    let mut memo = ChainMemo::new();
    let mut count: i32 = 0;
    assert_eq!(memo.solve(&set_of(&[1, 2]), &mut count), None);
}

#[test]
fn pair_two_seven_both_directions() {
    let mut memo = ChainMemo::new();
    let mut count: i32 = 0;
    let sol = memo.solve(&set_of(&[2, 7]), &mut count);
    assert_eq!(sol, Some(vec![vec![2, 7], vec![7, 2]]));
}

#[test]
fn pair_orientation_sorted_first() {
    let mut memo = ChainMemo::new();
    let mut count: i32 = 0;
    let sol = memo.solve(&set_of(&[7, 2]), &mut count);
    assert_eq!(sol, Some(vec![vec![2, 7], vec![7, 2]]));
}

#[test]
fn pair_negative_elements() {
    // -3 + 4 = 1 = 1^2.
    let mut memo = ChainMemo::new();
    let mut count: i32 = 0;
    let sol = memo.solve(&set_of(&[4, -3]), &mut count);
    assert_eq!(sol, Some(vec![vec![-3, 4], vec![4, -3]]));
}

#[test]
fn triple_one_two_seven_is_none() {
    let mut memo = ChainMemo::new();
    let mut count: i32 = 0;
    let sol = memo.solve(&set_of(&[1, 2, 7]), &mut count);
    assert_eq!(sol, None);
    // The subsets newly computed: {1,2,7}, {2,7}, {1,7}, {1,2}.
    assert_eq!(count, 4);
    assert_eq!(memo.len(), 4);
}

#[test]
fn triple_with_chains() {
    // 1+3 = 4 and 3+6 = 9, so {1,3,6} chains are [1,3,6] and [6,3,1].
    let mut memo = ChainMemo::new();
    let mut count: i32 = 0;
    let sol = memo.solve(&set_of(&[1, 3, 6]), &mut count);
    assert_eq!(sol, Some(vec![vec![1, 3, 6], vec![6, 3, 1]]));
}

#[test]
fn solve_is_idempotent() {
    let mut memo = ChainMemo::new();
    let mut count: i32 = 0;
    let first = memo.solve(&set_of(&[1, 3, 6]), &mut count);
    let after_first = count;
    let len_first = memo.len();
    let second = memo.solve(&set_of(&[1, 3, 6]), &mut count);
    assert_eq!(first, second);
    assert_eq!(count, after_first);
    assert_eq!(memo.len(), len_first);
}

#[test]
fn memo_reused_across_growing_sets() {
    let mut memo = ChainMemo::new();
    let mut x = BTreeSet::new();
    let mut last_len = 0;
    for n in 1..9 {
        x.insert(n);
        let mut count: i32 = 0;
        make_map(&x, &mut memo, &mut count);
        // The memo never shrinks across calls.
        assert!(memo.len() >= last_len);
        assert!(count >= 0);
        last_len = memo.len();
    }
    // A second pass over the same sets computes nothing new.
    let mut y = BTreeSet::new();
    for n in 1..9 {
        y.insert(n);
        let mut count: i32 = 0;
        make_map(&y, &mut memo, &mut count);
        assert_eq!(count, 0);
        assert_eq!(memo.len(), last_len);
    }
}

#[test]
fn counter_not_incremented_on_hit() {
    let mut memo = ChainMemo::new();
    let mut count: i32 = 0;
    memo.solve(&set_of(&[2, 7]), &mut count);
    assert_eq!(count, 1);
    memo.solve(&set_of(&[2, 7]), &mut count);
    assert_eq!(count, 1);
}

#[test]
fn brute_force_cross_validation_small_n() {
    // For each universe {1..n} with n <= 8, the memoized answer must list
    // exactly the orderings whose adjacent sums are perfect squares.
    for n in 2..9 {
        let mut universe = BTreeSet::new();
        for e in 1..(n + 1) {
            universe.insert(e);
        }
        let mut brute: Vec<Vec<i32>> = Vec::new();
        let mut work = universe.clone();
        for p in square_chains::perms::expand(&mut work) {
            let mut ok = true;
            for i in 0..p.len() - 1 {
                if !is_perfect_sq(p[i] + p[i + 1]) {
                    ok = false;
                }
            }
            if ok {
                brute.push(p);
            }
        }
        let mut memo = ChainMemo::new();
        let mut count: i32 = 0;
        let sol = memo.solve(&universe, &mut count);
        match sol {
            None => assert_eq!(brute.len(), 0),
            Some(chains) => {
                assert!(chains.len() > 0);
                for c in &chains {
                    assert!(brute.contains(c));
                }
                for b in &brute {
                    assert!(chains.contains(b));
                }
            },
        }
    }
}

#[test]
fn reverse_of_each_chain_is_present() {
    let mut memo = ChainMemo::new();
    let mut count: i32 = 0;
    let sol = memo.solve(&set_of(&[1, 3, 6]), &mut count).unwrap();
    for c in &sol {
        let mut r = c.clone();
        r.reverse();
        assert!(sol.contains(&r));
    }
}

#[test]
fn four_element_chain_found_in_both_directions() {
    // 1+3 = 4, 3+6 = 9, 6+10 = 16: the adjacency graph on {1,3,6,10} is a
    // single path, so exactly its two end-to-end traversals are chains.
    let mut memo = ChainMemo::new();
    let mut count: i32 = 0;
    let sol = memo.solve(&set_of(&[1, 3, 6, 10]), &mut count);
    assert_eq!(sol, Some(vec![vec![1, 3, 6, 10], vec![10, 6, 3, 1]]));
    // Newly computed: the set itself, its four triples and its six pairs
    // (the recursion bottoms out at pairs, so smaller subsets are never
    // queried).
    assert_eq!(count, 11);
    assert_eq!(memo.len(), 11);
}
