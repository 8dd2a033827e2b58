use solvers::inversions::{count_inversions_fast, merge_and_count, merge_sort_and_count};
use solvers::permutation;

#[test]
fn inversion_counts() {
    assert_eq!(count_inversions_fast(&[]), 0);
    assert_eq!(count_inversions_fast(&[7]), 0);
    assert_eq!(count_inversions_fast(&[1, 2, 3]), 0);
    assert_eq!(count_inversions_fast(&[3, 1, 2]), 2);
    assert_eq!(count_inversions_fast(&[4, 3, 2, 1]), 6);
    assert_eq!(count_inversions_fast(&[2, 2, 1]), 2);
    let rev: Vec<usize> = (0..1000).rev().collect();
    assert_eq!(count_inversions_fast(&rev), 1000 * 999 / 2);
}

#[test]
fn merge_of_two_runs() {
    let mut arr = vec![9, 1, 4, 2, 3, 0];
    let mut temp = vec![0; 6];
    assert_eq!(merge_and_count(&mut arr, &mut temp, 1, 2, 4), 2);
    assert_eq!(arr, vec![9, 1, 2, 3, 4, 0]);
}

#[test]
fn merge_sort_counts_and_sorts() {
    let mut arr = vec![5, 1, 4, 2];
    let mut temp = vec![0; 4];
    assert_eq!(merge_sort_and_count(&mut arr, &mut temp, 0, 3), 4);
    assert_eq!(arr, vec![1, 2, 4, 5]);
}

#[test]
fn derangement_with_few_inversions() {
    assert_eq!(permutation::solve(4, &[2, 1, 4, 3]), vec![3, 2, 1, 4]);
    assert_eq!(permutation::solve(2, &[1, 2]), vec![2, 1]);
    assert_eq!(permutation::solve(2, &[2, 1]), vec![1, 2]);
    assert_eq!(permutation::solve(3, &[1, 2, 3]), vec![2, 3, 1]);
    assert_eq!(permutation::solve(5, &[2, 3, 4, 5, 1]), vec![1, 2, 3, 4, 5]);
    assert_eq!(permutation::solve(6, &[1, 2, 3, 4, 5, 6]), vec![2, 1, 4, 3, 6, 5]);
    assert_eq!(permutation::solve(6, &[6, 5, 4, 3, 2, 1]), vec![1, 2, 3, 4, 5, 6]);
    assert_eq!(permutation::solve(1, &[1]), vec![1]);
}

#[test]
fn large_inputs_use_the_greedy_list() {
    let n = 10001;
    let p: Vec<usize> = (1..=n).collect();
    let q = permutation::solve(n, &p);
    assert_eq!(q.len(), n);
    assert_eq!(&q[..4], &[2, 1, 4, 3]);
    assert!(q.iter().zip(p.iter()).all(|(a, b)| a != b));
}
