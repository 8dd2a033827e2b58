use solvers::dsu::{find, union};
use solvers::kruskal;
use solvers::flow::Graph;
use solvers::interesting::{precompute, query, MAX_K, MAX_N};
use solvers::manhattan;
use solvers::matrix::{self, matrix_multiply, matrix_power};
use std::collections::HashSet;
use solvers::nines;
use solvers::permutation::{build_cyclic_shift, build_greedy_permutation, build_sorted_permutation, build_sorted_permutation_fast};
use solvers::primes::{self, process_large_primes, factorize, factorize_factorial_small, factorize_product, int_sqrt, legendre, sieve};
use solvers::scanner::Scanner;
use solvers::stirling::init_stirling_sum;
use solvers::subset;
use solvers::tiles;

#[test]
fn panel_dimensions() {
    // 3x3 panel: 8 red, 1 blue.
    assert_eq!(tiles::solve(8, 1), (3, 3));
    // 4x3 panel: 10 red, 2 blue.
    assert_eq!(tiles::solve(10, 2), (4, 3));
    // 10x7 panel: 30 red, 40 blue.
    assert_eq!(tiles::solve(30, 40), (10, 7));
    assert_eq!(tiles::solve(10, 5), (0, 0));
    assert_eq!(tiles::solve(4, 0), (0, 0));
}

#[test]
fn subset_sum_closest_to_hundred() {
    assert_eq!(subset::solve(&[10, 20, 30, 40, 50, 60, 70, 80, 90, 100]), 100);
    assert_eq!(subset::solve(&[1, 2, 3, 5, 8, 13, 21, 34, 55, 89]), 100);
    // 98 and 102 are equally close: the larger wins.
    assert_eq!(subset::solve(&[49, 51, 200, 200, 200, 200, 200, 200, 200, 200]), 100);
    assert_eq!(subset::solve(&[98, 300, 300, 300, 300, 300, 300, 300, 4, 300]), 102);
    assert_eq!(subset::solve(&[500, 500, 500, 500, 500, 500, 500, 500, 500, 500]), 0);
}

#[test]
fn nines_as_long_as_n_minus_one() {
    assert_eq!(nines::solve(1), ("9".to_string(), "9".to_string()));
    assert_eq!(nines::solve(10), ("9".to_string(), "9".to_string()));
    assert_eq!(nines::solve(11), ("99".to_string(), "99".to_string()));
    assert_eq!(nines::solve(1000), ("999".to_string(), "999".to_string()));
    assert_eq!(nines::solve(1001), ("9999".to_string(), "9999".to_string()));
    assert_eq!(nines::solve(-5), ("9".to_string(), "9".to_string()));
}

#[test]
fn integer_square_roots() {
    assert_eq!(int_sqrt(0), 0);
    assert_eq!(int_sqrt(1), 1);
    assert_eq!(int_sqrt(2), 1);
    assert_eq!(int_sqrt(15), 3);
    assert_eq!(int_sqrt(16), 4);
    assert_eq!(int_sqrt(1_000_000), 1000);
    assert_eq!(int_sqrt(i32::MAX), 46340);
    assert_eq!(int_sqrt(-7), -7);
}

#[test]
fn legendre_exponents() {
    // 10! = 2^8 * 3^4 * 5^2 * 7
    assert_eq!(legendre(10, 2), 8);
    assert_eq!(legendre(10, 3), 4);
    assert_eq!(legendre(10, 5), 2);
    assert_eq!(legendre(10, 11), 0);
    assert_eq!(legendre(1_000_000, 2), 999_993);
}

#[test]
fn range_counts_from_prefix_rows() {
    let mut rows = vec![vec![0i32; MAX_N + 1]; MAX_K + 1];
    for x in 1..=MAX_N {
        rows[2][x] = (x / 6) as i32;
    }
    assert_eq!(query(&rows, 2, 1, 12), 2);
    assert_eq!(query(&rows, 2, 7, 12), 1);
    assert_eq!(query(&rows, 2, 0, 2_000_000), (MAX_N / 6) as i32);
    assert_eq!(query(&rows, 10, 1, 12), 0);
    assert_eq!(query(&rows, 2, 13, 12), 0);
    assert_eq!(query(&rows, 2, MAX_N + 1, MAX_N + 5), 0);
}

#[test]
fn cyclic_shift_or_none() {
    assert_eq!(build_cyclic_shift(3, &[1, 2, 3]), Some(vec![2, 3, 1]));
    assert_eq!(build_cyclic_shift(1, &[1]), None);
    assert_eq!(build_cyclic_shift(0, &[]), Some(vec![]));
}

#[test]
fn residual_edges_point_at_each_other() {
    let mut g = Graph::new(3);
    g.add_edge(0, 1, 5, 7);
    g.add_edge(0, 2, 1, -3);
    assert_eq!(g.adj[0].len(), 2);
    assert_eq!(g.adj[0][0].to, 1);
    assert_eq!(g.adj[0][0].rev, 0);
    assert_eq!(g.adj[1][0].to, 0);
    assert_eq!(g.adj[1][0].cost, -7);
    assert_eq!(g.adj[1][0].capacity, 0);
    assert_eq!(g.adj[1][0].rev, 0);
    assert_eq!(g.adj[0][1].rev, 0);
    assert_eq!(g.adj[2][0].rev, 1);
    assert_eq!(g.adj[2][0].cost, 3);
}

#[test]
fn modular_matrix_product() {
    let a = vec![vec![1i64, 2], vec![3, 4]];
    let b = vec![vec![5i64, 6, 7], vec![8, 9, 10]];
    assert_eq!(matrix_multiply(&a, &b), vec![vec![21, 24, 27], vec![47, 54, 61]]);
    let big = vec![vec![998244352i64, 998244352]];
    let col = vec![vec![2i64], vec![3]];
    assert_eq!(matrix_multiply(&big, &col), vec![vec![998244348]]);
}

#[test]
fn stirling_prefix_table() {
    let t = init_stirling_sum();
    assert_eq!(t[0][0], 1);
    assert_eq!(t[0][5], 1);
    assert_eq!(t[3][0], 0);
    // c(3, 1..3) = 2, 3, 1
    assert_eq!(t[3][1], 2);
    assert_eq!(t[3][2], 5);
    assert_eq!(t[3][3], 6);
    assert_eq!(t[3][100], 6);
    // c(4, 1..4) = 6, 11, 6, 1
    assert_eq!(t[4][2], 17);
    assert_eq!(t[4][4], 24);
    // every row sums to n! modulo the prime: 12! = 479001600
    assert_eq!(t[12][12], 479001600);
}

#[test]
fn scanner_reads_digit_runs() {
    let mut s = Scanner::new(b"  12 x345\n-7 0009".to_vec());
    assert_eq!(s.next_i64(), 12);
    assert_eq!(s.next_i64(), 345);
    assert_eq!(s.next_i64(), 7);
    assert_eq!(s.next_i64(), 9);
    assert_eq!(s.next_i64(), 0);
    assert_eq!(s.pos, 17);
    let mut big = Scanner::new(b"999999999999999999".to_vec());
    assert_eq!(big.next_i64(), 999999999999999999);
}

#[test]
fn union_find_joins_trees() {
    let mut parent: Vec<usize> = (0..6).collect();
    let mut rank = vec![0usize; 6];
    union(&mut parent, &mut rank, 0, 1);
    assert_eq!(parent[1], 0);
    assert_eq!(rank[0], 1);
    union(&mut parent, &mut rank, 2, 3);
    union(&mut parent, &mut rank, 4, 2);
    assert_eq!(parent[4], 2);
    union(&mut parent, &mut rank, 0, 2);
    assert_eq!(parent[2], 0);
    assert_eq!(rank[0], 2);
    assert_eq!(find(&mut parent, 4), 0);
    // Path compression: 4 now points at the root.
    assert_eq!(parent[4], 0);
    assert_eq!(find(&mut parent, 5), 5);
    assert_eq!(find(&mut parent, 3), 0);
}

#[test]
fn sieve_lists_primes() {
    assert_eq!(sieve(1), Vec::<i32>::new());
    assert_eq!(sieve(2), vec![2]);
    assert_eq!(sieve(30), vec![2, 3, 5, 7, 11, 13, 17, 19, 23, 29]);
    let big = sieve(1_000_000);
    assert_eq!(big.len(), 78498);
    assert_eq!(*big.last().unwrap(), 999983);
}

#[test]
fn greedy_derangement() {
    assert_eq!(build_sorted_permutation(4, &[2, 1, 4, 3]), Some(vec![1, 2, 3, 4]));
    assert_eq!(build_sorted_permutation(3, &[1, 2, 3]), None);
    assert_eq!(build_sorted_permutation(3, &[3, 1, 2]), Some(vec![1, 2, 3]));
    assert_eq!(build_sorted_permutation(1, &[1]), None);
}

#[test]
fn trial_division_factorization() {
    assert_eq!(factorize(1), vec![]);
    assert_eq!(factorize(0), vec![]);
    assert_eq!(factorize(-12), vec![]);
    assert_eq!(factorize(2), vec![(2, 1)]);
    assert_eq!(factorize(360), vec![(2, 3), (3, 2), (5, 1)]);
    assert_eq!(factorize(97), vec![(97, 1)]);
    assert_eq!(factorize(i32::MAX), vec![(2147483647, 1)]);
    assert_eq!(factorize(1 << 30), vec![(2, 30)]);
}

#[test]
fn factorial_prime_exponents() {
    assert_eq!(factorize_factorial_small(10, 10), vec![(2, 8), (3, 4), (5, 2), (7, 1)]);
    assert_eq!(factorize_factorial_small(5, 2), vec![(2, 3)]);
}

#[test]
fn interesting_number_counts() {
    let t = precompute();
    // 6, 8, 10, 12, 14, 15, 16, 18, 20
    assert_eq!(query(&t, 2, 1, 20), 9);
    assert_eq!(query(&t, 3, 1, 100), 20);
    assert_eq!(query(&t, 4, 100, 1000), 106);
    assert_eq!(query(&t, 2, 1, 700000), 643311);
    assert_eq!(query(&t, 1, 1, 10), 9);
    // 2 * 3 * ... * 10 exceeds the range.
    assert_eq!(query(&t, 9, 1, 700000), 0);
    assert_eq!(t[0][MAX_N], 0);
}

#[test]
fn product_factorization() {
    assert_eq!(factorize_product(&[12, 18, 0, -5, 1]), vec![(2, 3), (3, 3)]);
    assert_eq!(factorize_product(&[]), vec![]);
    assert_eq!(factorize_product(&[35, 2, 11, 5]), vec![(2, 1), (5, 2), (7, 1), (11, 1)]);
}

#[test]
fn divisors_of_factorial_quotient() {
    // 5! / 2 = 2^2 * 3 * 5
    assert_eq!(primes::solve(5, 1, &[2]), 12);
    // 10! / 63 = 2^8 * 3^2 * 5^2
    assert_eq!(primes::solve(10, 2, &[7, 9]), 81);
    // 4! / 100: only 2 and 3 are counted
    assert_eq!(primes::solve(4, 1, &[100]), 4);
    assert_eq!(primes::solve(1, 0, &[]), 1);
    // 10! has 270 divisors
    assert_eq!(primes::solve(10, 0, &[]), 270);
}

#[test]
fn greedy_permutation_with_final_swap() {
    // The last position only has 3 = p[2] left: 3 moves one place earlier.
    assert_eq!(build_greedy_permutation(3, &[1, 2, 3]), vec![2, 3, 1]);
    assert_eq!(build_greedy_permutation(4, &[2, 1, 4, 3]), vec![1, 2, 3, 4]);
    assert_eq!(build_greedy_permutation(1, &[1]), vec![1]);
    assert_eq!(build_greedy_permutation(0, &[]), Vec::<usize>::new());
    assert_eq!(build_sorted_permutation_fast(3, &[3, 1, 2]), vec![1, 2, 3]);
    assert_eq!(build_sorted_permutation_fast(5, &[1, 2, 3, 4, 5]), vec![2, 1, 4, 5, 3]);
}

#[test]
fn manhattan_sums_after_each_move() {
    assert_eq!(manhattan::solve(&[0, 2, -1], &[0, 3, 1], "NESWx"), vec![6, 7, 8, 7, 7]);
    assert_eq!(manhattan::solve(&[5, 5], &[5, 5], "EEN"), vec![18, 16, 14]);
    assert_eq!(manhattan::solve(&[], &[], "NN"), vec![0, 0]);
    // A non-ASCII character is one command that leaves the point in place.
    assert_eq!(manhattan::solve(&[1], &[1], "\u{c9}N"), vec![2, 1]);
    assert_eq!(manhattan::solve(&[i32::MIN, i32::MAX], &[0, 0], "E"), vec![4294967295]);
}

#[test]
fn matrix_powers_by_squaring() {
    let fib = vec![vec![1i64, 1], vec![1, 0]];
    assert_eq!(matrix_power(&fib, 0), vec![vec![1, 0], vec![0, 1]]);
    assert_eq!(matrix_power(&fib, 1), fib);
    assert_eq!(matrix_power(&fib, 10), vec![vec![89, 55], vec![55, 34]]);
    assert_eq!(matrix_power(&fib, 100), vec![vec![246748276, 494958974], vec![494958974, 750033655]]);
}

fn good_sums(values: &[i32]) -> HashSet<i32> {
    values.iter().copied().collect()
}

#[test]
fn digit_strings_with_good_triples() {
    assert_eq!(matrix::solve(2, &good_sums(&[1, 2, 3])), 0);
    assert_eq!(matrix::solve(3, &good_sums(&[1])), 1);
    assert_eq!(matrix::solve(3, &good_sums(&[27])), 1);
    let all: Vec<i32> = (0..28).collect();
    assert_eq!(matrix::solve(3, &good_sums(&all)), 900);
    assert_eq!(matrix::solve(4, &good_sums(&[9])), 45);
    assert_eq!(matrix::solve(5, &good_sums(&[10, 11])), 437);
    assert_eq!(matrix::solve(1000, &good_sums(&[10, 11, 12])), 32757928);
}

#[test]
fn union_keeps_tree_sizes() {
    let mut parent: Vec<usize> = (0..5).collect();
    let mut rank = vec![0usize; 5];
    let mut size = vec![1usize; 5];
    kruskal::union(&mut parent, &mut rank, &mut size, 0, 1);
    assert_eq!((parent[1], rank[0], size[0]), (0, 1, 2));
    kruskal::union(&mut parent, &mut rank, &mut size, 2, 0);
    assert_eq!((parent[2], size[0]), (0, 3));
    kruskal::union(&mut parent, &mut rank, &mut size, 0, 3);
    assert_eq!((parent[3], size[0], rank[0]), (0, 4, 1));
    assert_eq!(find(&mut parent, 3), 0);
    assert_eq!(size[4], 1);
}

#[test]
fn primes_in_a_range_by_segments() {
    assert_eq!(process_large_primes(10, 50), vec![11, 13, 17, 19, 23, 29, 31, 37, 41, 43, 47]);
    assert_eq!(process_large_primes(1, 10), vec![2, 3, 5, 7]);
    assert_eq!(process_large_primes(-5, 3), vec![2, 3]);
    assert_eq!(process_large_primes(5, 4), Vec::<i32>::new());
    assert_eq!(process_large_primes(99990, 100030), vec![99991, 100003, 100019]);
    assert_eq!(process_large_primes(199990, 200010), vec![199999, 200003, 200009]);
    let wide = process_large_primes(1, 300000);
    assert_eq!(wide.len(), 25997);
    assert_eq!(wide, sieve(300000));
}
