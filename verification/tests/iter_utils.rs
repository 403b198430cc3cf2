use advent_lib::iter_utils::{
    chunk_by, combinations, find_cyclic_result_at, largest_values, max_n, repeat_nth, single, take_n, top, zip_with_next,
};

#[test]
fn test_normal_behavior() {
    assert_eq!(zip_with_next(&[1, 2, 3, 4]), vec![(1, 2), (2, 3), (3, 4)])
}

#[test]
fn empty_vector() {
    assert_eq!(zip_with_next(&Vec::<i32>::new()), vec![])
}

#[test]
fn single_item() {
    assert_eq!(zip_with_next(&[1]), vec![])
}

#[test]
fn check_single() {
    assert_eq!(None, single(&[1, 2, 3]));
    assert_eq!(None, single(&[1, 2]));
    assert_eq!(Some(1), single(&[1]));
    assert_eq!(None::<i32>, single(&[]));
}

#[test]
fn check_all_pairs() {
    assert_eq!(
        vec![vec![1, 2], vec![1, 3], vec![1, 4], vec![2, 3], vec![2, 4], vec![3, 4]],
        combinations(&[1, 2, 3, 4], 2)
    );
}

#[test]
fn check_all_triples() {
    assert_eq!(
        vec![vec![1, 2, 3], vec![1, 2, 4], vec![1, 3, 4], vec![2, 3, 4]],
        combinations(&[1, 2, 3, 4], 3)
    );
}

#[test]
fn chunks_between_separators() {
    assert_eq!(chunk_by(&[1, 2, 0, 3, 0, 0, 4], 0), vec![vec![1, 2], vec![3], vec![], vec![4]]);
    assert_eq!(chunk_by(&[1, 0], 0), vec![vec![1]]);
    assert_eq!(chunk_by::<i32>(&[], 0), Vec::<Vec<i32>>::new());
}

#[test]
fn take_and_repeat() {
    assert_eq!(take_n(&[5, 6, 7], 2), vec![5, 6]);
    assert_eq!(repeat_nth(&[5, 6, 7], 7), Some(6));
    assert_eq!(repeat_nth::<i32>(&[], 7), None);
}

#[test]
fn test_max_n() {
    assert_eq!(max_n(&(0..100).collect::<Vec<i64>>(), 3), [99, 98, 97]);
    assert_eq!(max_n(&(0..100).step_by(5).collect::<Vec<i64>>(), 2), [95, 90]);
    assert_eq!(max_n(&(0..100i32).step_by(5).rev().map(i64::from).collect::<Vec<i64>>(), 4), [95, 90, 85, 80]);
}

#[test]
fn test_getting_top_results() {
    assert_eq!(Some(vec![9, 8, 7]), top(&(1..10).collect::<Vec<usize>>(), |a: &usize, b: &usize| a > b, 3));
    assert_eq!(None, top(&(1..3).collect::<Vec<usize>>(), |a: &usize, b: &usize| a > b, 3));
}

#[test]
fn top_follows_the_given_ranking() {
    // Smallest first when the ranking is reversed.
    assert_eq!(top(&[5u32, 1, 4, 2], |a: &u32, b: &u32| a < b, 2), Some(vec![1, 2]));
    // Ranked by the second field only: of equals, the earlier one stays ahead.
    let items = [('a', 2u8), ('b', 3), ('c', 2), ('d', 1)];
    let best = top(&items, |x: &(char, u8), y: &(char, u8)| x.1 > y.1, 3);
    assert_eq!(best, Some(vec![('b', 3), ('a', 2), ('c', 2)]));
    assert_eq!(top(&items, |x: &(char, u8), y: &(char, u8)| x.1 > y.1, 0), Some(vec![]));
}

#[test]
fn largest_values_of_integers() {
    assert_eq!(largest_values(&[4, -2, 9, 4], 3), Some(vec![9, 4, 4]));
    assert_eq!(largest_values(&[1], 2), None);
}

#[test]
fn max_n_keeps_zeros_against_negatives() {
    assert_eq!(max_n(&[-5, 3, -1], 2), [3, 0]);
    assert_eq!(largest_values(&[-5, 3, -1, 3], 3), Some(vec![3, 3, -1]));
}

#[test]
fn cyclic_result_found_from_the_first_repeat() {
    let items: Vec<(u64, u32)> = vec![(5, 10), (7, 20), (9, 30), (7, 20), (9, 30)];
    assert_eq!(find_cyclic_result_at(&items, 10), Some(20));
    assert_eq!(find_cyclic_result_at(&items, 9), Some(30));
    assert_eq!(find_cyclic_result_at(&items, 4), Some(20));
    assert_eq!(find_cyclic_result_at(&items[0..3], 10), None);
}
