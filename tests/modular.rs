use solvers::factorials::{comb, mod_pow, precompute_factorials, precompute_inv_factorials, solve, MOD};
use solvers::hypercube;
use solvers::inverses;

#[test]
fn mod_pow_small_values() {
    assert_eq!(mod_pow(2, 10), 1024);
    assert_eq!(mod_pow(3, 0), 1);
    assert_eq!(mod_pow(0, 5), 0);
    assert_eq!(mod_pow(MOD + 2, 3), 8);
}

#[test]
fn factorial_tables_invert_each_other() {
    let fact = precompute_factorials(20);
    assert_eq!(fact[0], 1);
    assert_eq!(fact[5], 120);
    assert_eq!(fact[10], 3628800);
    let inv = precompute_inv_factorials(&fact, 20);
    for i in 0..=20 {
        assert_eq!(fact[i] * inv[i] % MOD, 1);
    }
}

#[test]
fn binomials_from_tables() {
    let fact = precompute_factorials(30);
    let inv = precompute_inv_factorials(&fact, 30);
    assert_eq!(comb(5, 2, &fact, &inv), 10);
    assert_eq!(comb(30, 15, &fact, &inv), 155117520);
    assert_eq!(comb(3, 4, &fact, &inv), 0);
}

#[test]
fn remarkable_array_counts() {
    let fact = precompute_factorials(50);
    let inv = precompute_inv_factorials(&fact, 50);
    // (n + 1)! * C(s, n)
    assert_eq!(solve(1, 1, &fact, &inv), 2);
    assert_eq!(solve(2, 3, &fact, &inv), 18);
    assert_eq!(solve(4, 3, &fact, &inv), 0);
}

#[test]
fn hypercube_inverse_and_power() {
    assert_eq!(hypercube::mod_pow(2, 30, 1_000_000_007), 73741817);
    assert_eq!(hypercube::mod_inverse(2, hypercube::MOD), 500000004);
    assert_eq!(hypercube::mod_inverse(3, hypercube::MOD) * 3 % hypercube::MOD, 1);
}

#[test]
fn hypercube_expected_times() {
    assert_eq!(hypercube::solve(1), 1);
    // A square: E = 4 steps to reach the opposite corner.
    assert_eq!(hypercube::solve(2), 4);
    // A cube: E = 10.
    assert_eq!(hypercube::solve(3), 10);
}

#[test]
fn inverse_table_inverts() {
    let inv = inverses::inverse_table(1000);
    for i in 1..=1000i64 {
        assert_eq!(i * inv[i as usize] % inverses::MOD, 1);
    }
    assert_eq!(inv[2], 500000004);
}

#[test]
fn counts_answer() {
    assert_eq!(inverses::solve(&[]), 0);
    assert_eq!(inverses::solve(&[0, 5, 0]), 0);
    assert_eq!(inverses::solve(&[1, 1]), 1);
    // N = 5, S = 2: 10 * (1/4 + 1/6) = 25/6
    assert_eq!(inverses::solve(&[2, 3]), 166666672);
}
