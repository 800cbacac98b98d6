use std::collections::{BTreeMap, BTreeSet};
use square_chains::perms::{all_pairs, all_perfect, expand};
use square_chains::square::{is_perfect_sq, map_perfect, set_perfect};

#[test]
fn perfect_squares_recognized() {
    assert!(is_perfect_sq(0));
    assert!(is_perfect_sq(1));
    assert!(is_perfect_sq(4));
    assert!(is_perfect_sq(9));
    assert!(is_perfect_sq(16));
    assert!(is_perfect_sq(25));
    assert!(is_perfect_sq(46340 * 46340));
}

#[test]
fn non_squares_rejected() {
    assert!(!is_perfect_sq(2));
    assert!(!is_perfect_sq(3));
    assert!(!is_perfect_sq(5));
    assert!(!is_perfect_sq(8));
    assert!(!is_perfect_sq(24));
    assert!(!is_perfect_sq(i32::MAX));
}

#[test]
fn negative_numbers_are_not_squares() {
    assert!(!is_perfect_sq(-1));
    assert!(!is_perfect_sq(-4));
    assert!(!is_perfect_sq(i32::MIN));
}

#[test]
fn expand_empty_set() {
    let mut s: BTreeSet<i32> = BTreeSet::new();
    let perms = expand(&mut s);
    assert_eq!(perms.len(), 0);
    assert!(s.is_empty());
}

#[test]
fn expand_singleton() {
    let mut s = BTreeSet::new();
    s.insert(5);
    let perms = expand(&mut s);
    assert_eq!(perms, vec![vec![5]]);
    assert!(s.contains(&5));
}

#[test]
fn expand_three_elements() {
    let mut s = BTreeSet::new();
    s.insert(1);
    s.insert(2);
    s.insert(3);
    let perms = expand(&mut s);
    assert_eq!(
        perms,
        vec![
            vec![1, 2, 3],
            vec![1, 3, 2],
            vec![2, 1, 3],
            vec![2, 3, 1],
            vec![3, 1, 2],
            vec![3, 2, 1],
        ]
    );
    assert_eq!(s.len(), 3);
}

#[test]
fn all_perfect_accepts_square_pair() {
    assert!(all_perfect(&vec![1, 3]));
}

#[test]
fn all_perfect_rejects_non_square_pair() {
    assert!(!all_perfect(&vec![1, 2]));
}

#[test]
fn all_perfect_scans_non_adjacent_pairs() {
    // 1+3 = 4 is square but the scan also tests 1+6 = 7, so this fails.
    assert!(!all_perfect(&vec![1, 3, 6]));
}

#[test]
fn all_perfect_includes_doubled_entries() {
    // The scan tests an entry against itself: 2+2 = 4 everywhere.
    assert!(all_perfect(&vec![2, 2, 2]));
}

#[test]
fn all_pairs_lists_both_orientations() {
    let pairs = all_pairs(vec![1, 3, 6]);
    assert_eq!(pairs, vec![(1, 3), (3, 1), (3, 6), (6, 3)]);
}

#[test]
fn all_pairs_empty_when_no_square_sums() {
    let pairs = all_pairs(vec![1, 2]);
    assert_eq!(pairs, Vec::<(i32, i32)>::new());
}

#[test]
fn membership_tests_agree() {
    let mut set = BTreeSet::new();
    let mut map = BTreeMap::new();
    for n in 1..10 {
        set.insert(n * n);
        map.insert(n * n, n);
    }
    assert!(set_perfect(16, &set));
    assert!(!set_perfect(15, &set));
    assert!(map_perfect(16, &map));
    assert!(!map_perfect(15, &map));
}
