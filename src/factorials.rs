//! Counting arrays with a factorial formula modulo a prime: tables of
//! factorials and of their inverses, binomial coefficients, and fast powers.
use crate::modular::lemma_square_multiply_step;
use vstd::arithmetic::div_mod::lemma_mul_mod_noop_left;
use vstd::arithmetic::power::{lemma_pow0, lemma_pow_mod_noop, pow};
use vstd::prelude::*;

verus! {

/// The prime modulus of this solver.
pub const MOD: i64 = 998244353;

/// `n!`
pub open spec fn fact(n: nat) -> nat
    decreases n,
{
    if n == 0 {
        1
    } else {
        n * fact((n - 1) as nat)
    }
}

/// `(i + 1) * (i + 2) * ... * n`, that is `n! / i!`.
pub open spec fn rising(i: nat, n: nat) -> nat
    decreases n - i,
{
    if i >= n {
        1
    } else {
        (i + 1) * rising(i + 1, n)
    }
}

/// Every entry lies in `[0, MOD)`.
pub open spec fn reduced(t: Seq<i64>) -> bool {
    forall|i: int| 0 <= i < t.len() ==> 0 <= #[trigger] t[i] < MOD
}

/// `a^b mod MOD` by square-and-multiply.
pub fn mod_pow(a: i64, b: i64) -> (r: i64)
    requires
        a >= 0,
        b >= 0,
    ensures
        r == pow(a as int, b as nat) % (MOD as int),
{
    let ghost m = MOD as int;
    let mut result: i64 = 1;
    let mut base = a % MOD;
    let mut e = b;
    proof {
        lemma_pow_mod_noop(a as int, b as nat, m);
    }
    while e > 0
        invariant
            m == MOD,
            0 <= base < MOD,
            0 <= result < MOD,
            e >= 0,
            (result * pow(base as int, e as nat)) % m == pow(a as int, b as nat) % m,
        decreases e,
    {
        proof {
            lemma_square_multiply_step(result as int, base as int, e as nat, m);
        }
        let odd = e & 1;
        assert(odd == e % 2) by (bit_vector)
            requires
                odd == e & 1,
                e >= 0,
        ;
        assert(result * base < MOD * MOD && base * base < MOD * MOD) by (nonlinear_arith)
            requires
                0 <= result < MOD,
                0 <= base < MOD,
        ;
        if odd == 1 {
            result = result * base % MOD;
        }
        base = base * base % MOD;
        let half = e >> 1;
        assert(half == e / 2) by (bit_vector)
            requires
                half == e >> 1,
                e >= 0,
        ;
        e = half;
    }
    proof {
        lemma_pow0(base as int);
    }
    result
}

/// `fact[i] = i! mod MOD` for every `i <= n`.
pub fn precompute_factorials(n: usize) -> (fact_table: Vec<i64>)
    requires
        n <= 9_000_000_000,
        n < usize::MAX,
    ensures
        fact_table@.len() == n + 1,
        forall|i: int| 0 <= i <= n ==> #[trigger] fact_table@[i] == fact(i as nat) % (MOD as nat),
{
    let mut t: Vec<i64> = Vec::new();
    t.push(1);
    assert(fact(0) == 1);
    assert(1nat % (MOD as nat) == 1) by (nonlinear_arith);
    let mut i: usize = 1;
    while i <= n
        invariant
            1 <= i <= n + 1,
            n <= 9_000_000_000,
            n < usize::MAX,
            t@.len() == i,
            forall|j: int| 0 <= j < i ==> #[trigger] t@[j] == fact(j as nat) % (MOD as nat),
        decreases n + 1 - i,
    {
        let prev = t[i - 1];
        assert(0 <= prev < MOD);
        assert(prev * (i as i64) <= 998244352 * 9_000_000_000) by (nonlinear_arith)
            requires
                0 <= prev < MOD,
                i <= 9_000_000_000,
        ;
        let v = prev * (i as i64) % MOD;
        proof {
            lemma_mul_mod_noop_left(fact((i - 1) as nat) as int, i as int, MOD as int);
            assert(fact(i as nat) == i * fact((i - 1) as nat));
        }
        t.push(v);
        i = i + 1;
    }
    t
}

/// Inverse factorials from the top down: entry `n` is `fact[n]^(MOD-2)`, and
/// each lower entry is the one above it times its index, so that entry `i` is
/// `fact[n]^(MOD-2) * (n! / i!) mod MOD`, the inverse of `i!` modulo the prime
/// when `fact[n] = n! mod MOD`.
pub fn precompute_inv_factorials(fact_table: &[i64], n: usize) -> (inv: Vec<i64>)
    requires
        n < fact_table@.len(),
        0 <= fact_table@[n as int],
        n <= 9_000_000_000,
        n < usize::MAX,
    ensures
        inv@.len() == n + 1,
        forall|i: int|
            0 <= i <= n ==> #[trigger] inv@[i] == (pow(fact_table@[n as int] as int, (MOD - 2) as nat) * rising(i as nat, n as nat)) % (MOD as int),
{
    let ghost top = pow(fact_table@[n as int] as int, (MOD - 2) as nat);
    let mut inv: Vec<i64> = Vec::new();
    let mut i: usize = 0;
    while i <= n
        invariant
            i <= n + 1,
            n < usize::MAX,
            inv@.len() == i,
            forall|j: int| 0 <= j < i ==> #[trigger] inv@[j] == 0,
        decreases n + 1 - i,
    {
        inv.push(0);
        i = i + 1;
    }
    let last = mod_pow(fact_table[n], MOD - 2);
    inv.set(n, last);
    proof {
        assert(rising(n as nat, n as nat) == 1);
        assert(top * rising(n as nat, n as nat) == top);
        assert(inv@[n as int] == top % (MOD as int));
    }
    let mut i: usize = n;
    while i >= 1
        invariant
            i <= n,
            n <= 9_000_000_000,
            inv@.len() == n + 1,
            top == pow(fact_table@[n as int] as int, (MOD - 2) as nat),
            forall|j: int| i <= j <= n ==> #[trigger] inv@[j] == (top * rising(j as nat, n as nat)) % (MOD as int),
        decreases i,
    {
        let cur = inv[i];
        assert(0 <= cur < MOD);
        assert(cur * (i as i64) <= 998244352 * 9_000_000_000) by (nonlinear_arith)
            requires
                0 <= cur < MOD,
                i <= 9_000_000_000,
        ;
        let v = cur * (i as i64) % MOD;
        proof {
            lemma_mul_mod_noop_left(top * rising(i as nat, n as nat), i as int, MOD as int);
            assert(rising((i - 1) as nat, n as nat) == i * rising(i as nat, n as nat));
            assert(top * rising((i - 1) as nat, n as nat) == (top * rising(i as nat, n as nat)) * i) by (nonlinear_arith)
                requires
                    rising((i - 1) as nat, n as nat) == i * rising(i as nat, n as nat),
            ;
        }
        inv.set(i - 1, v);
        i = i - 1;
    }
    inv
}

/// `C(n, k) mod MOD` from the two tables: 0 when `k > n`, else
/// `fact[n] * inv[k] * inv[n - k]`, reduced after each product.
pub fn comb(n: usize, k: usize, fact_table: &[i64], inv_fact: &[i64]) -> (r: i64)
    requires
        n < fact_table@.len(),
        n < inv_fact@.len(),
        reduced(fact_table@),
        reduced(inv_fact@),
    ensures
        k > n ==> r == 0,
        k <= n ==> r == (fact_table@[n as int] * inv_fact@[k as int] % (MOD as int)) * inv_fact@[n - k] % (MOD as int),
        0 <= r < MOD,
{
    if k > n {
        return 0;
    }
    let a = fact_table[n];
    let b = inv_fact[k];
    let c = inv_fact[n - k];
    assert(a * b < MOD * MOD) by (nonlinear_arith)
        requires
            0 <= a < MOD,
            0 <= b < MOD,
    ;
    let ab = a * b % MOD;
    assert(ab * c < MOD * MOD) by (nonlinear_arith)
        requires
            0 <= ab < MOD,
            0 <= c < MOD,
    ;
    ab * c % MOD
}

/// The number of remarkable arrays for `n` and `s`, modulo MOD:
/// `(n + 1)! * C(s, n)`, and 0 when `n > s`.
pub fn solve(n: usize, s: usize, fact_table: &[i64], inv_fact: &[i64]) -> (r: i64)
    requires
        s < fact_table@.len(),
        s < inv_fact@.len(),
        n <= s ==> n + 1 < fact_table@.len(),
        reduced(fact_table@),
        reduced(inv_fact@),
    ensures
        n > s ==> r == 0,
        n <= s ==> r == fact_table@[n + 1] * ((fact_table@[s as int] * inv_fact@[n as int] % (MOD as int))
            * inv_fact@[s - n] % (MOD as int)) % (MOD as int),
{
    if n > s {
        return 0;
    }
    let c = comb(s, n, fact_table, inv_fact);
    let len = fact_table.len();
    assert(n + 1 < len);
    let f = fact_table[n + 1];
    assert(f * c < MOD * MOD) by (nonlinear_arith)
        requires
            0 <= f < MOD,
            0 <= c < MOD,
    ;
    f * c % MOD
}

} // verus!
