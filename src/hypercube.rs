//! Expected walk time on a hypercube, solved as a tridiagonal system in
//! arithmetic modulo a prime.
use crate::modular::lemma_square_multiply_step;
use vstd::arithmetic::div_mod::lemma_small_mod;
use vstd::arithmetic::power::{lemma_pow0, lemma_pow_mod_noop, pow};
use vstd::prelude::*;

verus! {

/// The prime modulus of this solver.
pub const MOD: i64 = 1_000_000_007;

/// `base^exp mod m` by square-and-multiply.
pub fn mod_pow(base: i64, exp: i64, m: i64) -> (r: i64)
    requires
        base >= 0,
        exp >= 0,
        1 < m <= 3_037_000_499,
    ensures
        r == pow(base as int, exp as nat) % (m as int),
{
    let mut result: i64 = 1;
    let mut b = base % m;
    let mut e = exp;
    proof {
        lemma_pow_mod_noop(base as int, exp as nat, m as int);
    }
    while e > 0
        invariant
            1 < m <= 3_037_000_499,
            0 <= b < m,
            0 <= result < m,
            e >= 0,
            (result * pow(b as int, e as nat)) % (m as int) == pow(base as int, exp as nat) % (m as int),
        decreases e,
    {
        proof {
            lemma_square_multiply_step(result as int, b as int, e as nat, m as int);
        }
        assert(result * b < 3_037_000_499 * 3_037_000_499 && b * b < 3_037_000_499 * 3_037_000_499) by (nonlinear_arith)
            requires
                0 <= result < m,
                0 <= b < m,
                m <= 3_037_000_499,
        ;
        if e % 2 == 1 {
            result = result * b % m;
        }
        let half = e >> 1;
        assert(half == e / 2) by (bit_vector)
            requires
                half == e >> 1,
                e >= 0,
        ;
        e = half;
        b = b * b % m;
    }
    proof {
        lemma_pow0(b as int);
        lemma_small_mod(result as nat, m as nat);
    }
    result
}

/// `a^(m-2) mod m`: the inverse of `a` by Fermat's little theorem when `m` is
/// prime and does not divide `a`.
pub fn mod_inverse(a: i64, m: i64) -> (r: i64)
    requires
        a >= 0,
        2 <= m <= 3_037_000_499,
    ensures
        r == pow(a as int, (m - 2) as nat) % (m as int),
{
    mod_pow(a, m - 2, m)
}

/// Inverse modulo MOD, as Fermat's little theorem gives it.
pub open spec fn inv(x: int) -> int {
    pow(x, (MOD - 2) as nat) % (MOD as int)
}

/// The common denominator `n - k * alpha[k-1]` of step `k`, modulo MOD.
pub open spec fn denom(n: nat, k: nat, alpha_prev: int) -> int {
    ((n % (MOD as nat)) as int - ((k % (MOD as nat)) as int * alpha_prev) % (MOD as int) + MOD) % (MOD as int)
}

/// Forward sweep: `E[k] = alpha[k] * E[k+1] + beta[k]`, with `E[0] = 0`.
pub open spec fn alpha(n: nat, k: nat) -> int
    decreases k,
{
    if k == 0 {
        0
    } else {
        (((n - k) as nat % (MOD as nat)) as int * inv(denom(n, k, alpha(n, (k - 1) as nat)))) % (MOD as int)
    }
}

/// Forward sweep, constant terms.
pub open spec fn beta(n: nat, k: nat) -> int
    decreases k,
{
    if k == 0 {
        0
    } else {
        (((n % (MOD as nat)) as int + ((k % (MOD as nat)) as int * beta(n, (k - 1) as nat)) % (MOD as int))
            % (MOD as int) * inv(denom(n, k, alpha(n, (k - 1) as nat)))) % (MOD as int)
    }
}

/// `E[n]` from the boundary condition `E[n] = 1 + E[n-1]`.
pub open spec fn expected_time(n: nat) -> int {
    if n <= 1 {
        1
    } else {
        (1 + beta(n, (n - 1) as nat)) % (MOD as int) * inv((1 - alpha(n, (n - 1) as nat) + MOD) % (MOD as int))
            % (MOD as int)
    }
}

/// The expected time `E(n) mod MOD` for a hypercube of dimension `n`.
pub fn solve(n: usize) -> (r: i64)
    requires
        1 <= n,
    ensures
        r == expected_time(n as nat),
{
    if n == 1 {
        return 1;
    }
    let n_mod = (n as u64 % MOD as u64) as i64;
    let mut alpha_prev: i64 = 0;
    let mut beta_prev: i64 = 0;
    let mut k: usize = 1;
    while k < n
        invariant
            2 <= n,
            1 <= k <= n,
            n_mod == (n as nat % (MOD as nat)) as int,
            alpha_prev == alpha(n as nat, (k - 1) as nat),
            beta_prev == beta(n as nat, (k - 1) as nat),
            0 <= alpha_prev < MOD,
            0 <= beta_prev < MOD,
        decreases n - k,
    {
        let k_mod = (k as u64 % MOD as u64) as i64;
        let n_minus_k = ((n - k) as u64 % MOD as u64) as i64;
        assert(k_mod * alpha_prev < MOD * MOD && k_mod * beta_prev < MOD * MOD) by (nonlinear_arith)
            requires
                0 <= k_mod < MOD,
                0 <= alpha_prev < MOD,
                0 <= beta_prev < MOD,
        ;
        let d = (n_mod - k_mod * alpha_prev % MOD + MOD) % MOD;
        let d_inv = mod_inverse(d, MOD);
        assert(n_minus_k * d_inv < MOD * MOD) by (nonlinear_arith)
            requires
                0 <= n_minus_k < MOD,
                0 <= d_inv < MOD,
        ;
        let a = n_minus_k * d_inv % MOD;
        let num = (n_mod + k_mod * beta_prev % MOD) % MOD;
        assert(num * d_inv < MOD * MOD) by (nonlinear_arith)
            requires
                0 <= num < MOD,
                0 <= d_inv < MOD,
        ;
        let b = num * d_inv % MOD;
        proof {
            assert(d == denom(n as nat, k as nat, alpha_prev as int));
            assert(a == alpha(n as nat, k as nat));
            assert(b == beta(n as nat, k as nat));
        }
        alpha_prev = a;
        beta_prev = b;
        k = k + 1;
    }
    let one_minus_alpha = (1 - alpha_prev + MOD) % MOD;
    let oma_inv = mod_inverse(one_minus_alpha, MOD);
    let top = (1 + beta_prev) % MOD;
    assert(top * oma_inv < MOD * MOD) by (nonlinear_arith)
        requires
            0 <= top < MOD,
            0 <= oma_inv < MOD,
    ;
    top * oma_inv % MOD
}

} // verus!
