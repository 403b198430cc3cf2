use advent_lib::disjoint_set::DisjointSet;

#[test]
fn joins_and_sets() {
    let mut set = DisjointSet::with_len(6);
    assert_eq!(set.len(), 6);
    assert!(!set.is_empty());
    assert!(set.join(0, 1));
    assert!(set.join(4, 1));
    assert!(!set.join(0, 4));
    assert!(set.join(2, 3));
    assert!(set.is_joined(0, 4));
    assert!(!set.is_joined(0, 2));
    let mut sets = set.sets();
    sets.sort();
    assert_eq!(sets, vec![vec![0, 1, 4], vec![2, 3], vec![5]]);
}

#[test]
fn empty_set() {
    let set = DisjointSet::with_len(0);
    assert!(set.is_empty());
    assert_eq!(set.sets(), Vec::<Vec<usize>>::new());
}
