use solvers::components::components;
use solvers::plan::{attempt, coverage_index, Attempt, RANDOM_RETRIES};
use solvers::rng::Rng;
use solvers::search::{Candidate, CoverSearch, Step};

fn cand(covers: &[bool], clear: bool) -> Candidate {
    Candidate { covers: covers.to_vec(), clear }
}

#[test]
fn generator_stream_is_fixed() {
    let mut a = Rng::new(42);
    assert_eq!(a.next_u64(), 45454805674);
    assert_eq!(a.next_u64(), 11532217803599905471);
    assert_eq!(a.next_u64(), 10021416941527320954);
    assert_eq!(a.state, 10021416941527320954);
}

#[test]
fn same_seed_same_stream() {
    let mut a = Rng::new(42);
    let mut b = Rng::new(42);
    for _ in 0..100 {
        assert_eq!(a.next_u64(), b.next_u64());
    }
    let mut c = Rng::new(43);
    assert_ne!(Rng::new(42).next_u64(), c.next_u64());
}

#[test]
fn attempts_in_order() {
    assert_eq!(attempt(0, RANDOM_RETRIES), Some(Attempt::Exact));
    assert_eq!(attempt(1, RANDOM_RETRIES), Some(Attempt::Fixed));
    assert_eq!(attempt(2, RANDOM_RETRIES), Some(Attempt::Jittered));
    assert_eq!(attempt(4, RANDOM_RETRIES), Some(Attempt::Jittered));
    assert_eq!(attempt(5, RANDOM_RETRIES), None);
    assert_eq!(attempt(2, 0), None);
}

#[test]
fn coverage_index_lists_covering_candidates() {
    let cover = vec![vec![true, false, true], vec![false, false, true], vec![true, true, false]];
    let index = coverage_index(&cover, 3);
    assert_eq!(index, vec![vec![0, 2], vec![2], vec![0, 1]]);
    assert_eq!(coverage_index(&Vec::new(), 2), vec![Vec::<usize>::new(), Vec::new()]);
}

fn near_from(edges: &[(usize, usize)], n: usize) -> Vec<Vec<bool>> {
    let mut near = vec![vec![false; n]; n];
    for i in 0..n {
        near[i][i] = true;
    }
    for &(a, b) in edges {
        near[a][b] = true;
        near[b][a] = true;
    }
    near
}

#[test]
fn components_partition_points() {
    // 0 - 3 - 4 form a chain, 1 stands alone, 2 - 5 are linked.
    let near = near_from(&[(0, 3), (3, 4), (2, 5)], 6);
    let comps = components(&near);
    assert_eq!(comps, vec![vec![0, 3, 4], vec![1], vec![2, 5]]);
    let mut seen = vec![0; 6];
    for c in &comps {
        for &v in c {
            seen[v] += 1;
        }
    }
    assert!(seen.iter().all(|&k| k == 1));
}

#[test]
fn components_in_breadth_first_order() {
    let near = near_from(&[(0, 4), (0, 2), (4, 1), (2, 3)], 5);
    assert_eq!(components(&near), vec![vec![0, 2, 4, 3, 1]]);
    assert_eq!(components(&Vec::new()), Vec::<Vec<usize>>::new());
}

#[test]
fn empty_component_needs_no_circle() {
    let (s, step) = CoverSearch::start(0);
    assert!(matches!(step, Step::Found));
    assert!(s.path().is_empty());
}

#[test]
fn one_circle_covers_both_points() {
    let (mut s, step) = CoverSearch::start(2);
    assert!(matches!(step, Step::Expand(0)));
    let step = s.offer(vec![cand(&[true, true], true)]);
    assert!(matches!(step, Step::Found));
    assert_eq!(s.path(), &vec![0]);
}

#[test]
fn far_points_take_one_circle_each() {
    // Points (0, 0) and (2.5, 0): each candidate covers only its own point,
    // and the second is clear of the first (2.5 >= 2).
    let (mut s, step) = CoverSearch::start(2);
    assert!(matches!(step, Step::Expand(0)));
    let step = s.offer(vec![cand(&[true, false], true)]);
    assert!(matches!(step, Step::Expand(1)));
    let step = s.offer(vec![cand(&[false, true], true)]);
    assert!(matches!(step, Step::Found));
    assert_eq!(s.path(), &vec![0, 0]);
}

#[test]
fn search_skips_blocked_candidates() {
    let (mut s, _) = CoverSearch::start(3);
    let step = s.offer(vec![cand(&[false, true, true], true), cand(&[true, false, false], false), cand(&[true, true, false], true)]);
    assert!(matches!(step, Step::Expand(2)));
    assert_eq!(s.path(), &vec![2]);
}

#[test]
fn search_backtracks_then_succeeds() {
    let (mut s, _) = CoverSearch::start(3);
    // Root: two ways to cover point 0.
    let step = s.offer(vec![cand(&[true, true, false], true), cand(&[true, false, false], true)]);
    assert!(matches!(step, Step::Expand(2)));
    // Nothing clear covers point 2 after the first choice: back to the root.
    let step = s.offer(vec![cand(&[false, false, true], false)]);
    assert!(matches!(step, Step::Expand(1)));
    assert_eq!(s.path(), &vec![1]);
    let step = s.offer(vec![cand(&[false, true, true], true)]);
    assert!(matches!(step, Step::Found));
    assert_eq!(s.path(), &vec![1, 0]);
}

#[test]
fn search_exhausts() {
    let (mut s, _) = CoverSearch::start(2);
    let step = s.offer(vec![cand(&[true, false], true)]);
    assert!(matches!(step, Step::Expand(1)));
    let step = s.offer(vec![cand(&[false, true], false), cand(&[true, false], true)]);
    assert!(matches!(step, Step::Exhausted));
    assert!(s.path().is_empty());
}

#[test]
fn search_with_no_candidates_exhausts() {
    let (mut s, _) = CoverSearch::start(1);
    assert!(matches!(s.offer(Vec::new()), Step::Exhausted));
}
