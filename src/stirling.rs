//! Prefix sums of unsigned Stirling numbers of the first kind modulo a prime:
//! entry `[n][k]` counts the permutations of `n` items with at most `k` cycles.
use vstd::arithmetic::div_mod::{lemma_add_mod_noop, lemma_mod_bound, lemma_mul_mod_noop_right};
use vstd::prelude::*;

verus! {

/// The prime modulus of this solver.
pub const MOD: i64 = 998244353;

/// The size of the table: rows and columns `0 .. MAX_N`.
pub const MAX_N: usize = 3005;

/// `c(n, k)`: permutations of `n` items with exactly `k` cycles.
pub open spec fn cycles(n: nat, k: nat) -> nat
    decreases n,
{
    if n == 0 {
        if k == 0 {
            1
        } else {
            0
        }
    } else if k == 0 {
        0
    } else {
        cycles((n - 1) as nat, (k - 1) as nat) + ((n - 1) as nat) * cycles((n - 1) as nat, k)
    }
}

/// `c(n, 0) + c(n, 1) + ... + c(n, k)`
pub open spec fn at_most(n: nat, k: nat) -> nat
    decreases k,
{
    if k == 0 {
        cycles(n, 0)
    } else {
        at_most(n, (k - 1) as nat) + cycles(n, k)
    }
}

/// The table of `at_most(n, k) mod MOD` for `n, k < MAX_N`.
pub fn init_stirling_sum() -> (t: Vec<Vec<i64>>)
    ensures
        t@.len() == MAX_N,
        forall|n: int| 0 <= n < MAX_N ==> (#[trigger] t@[n])@.len() == MAX_N,
        forall|n: int, k: int|
            0 <= n < MAX_N && 0 <= k < MAX_N ==> #[trigger] t@[n]@[k] == at_most(n as nat, k as nat) % (MOD as nat),
{
    let mut t: Vec<Vec<i64>> = Vec::new();
    // Row 0: one permutation of nothing, with no cycle.
    let mut first: Vec<i64> = Vec::new();
    let mut prev: Vec<i64> = Vec::new();
    let mut j: usize = 0;
    while j < MAX_N
        invariant
            j <= MAX_N,
            first@.len() == j,
            prev@.len() == j,
            forall|k: int| 0 <= k < j ==> #[trigger] first@[k] == at_most(0, k as nat) % (MOD as nat),
            forall|k: int| 0 <= k < j ==> #[trigger] prev@[k] == cycles(0, k as nat) % (MOD as nat),
        decreases MAX_N - j,
    {
        proof {
            lemma_row_zero(j as nat);
        }
        first.push(1);
        prev.push(if j == 0 { 1 } else { 0 });
        j = j + 1;
    }
    t.push(first);
    let mut i: usize = 1;
    while i < MAX_N
        invariant
            1 <= i <= MAX_N,
            t@.len() == i,
            prev@.len() == MAX_N,
            forall|n: int| 0 <= n < i ==> (#[trigger] t@[n])@.len() == MAX_N,
            forall|n: int, k: int|
                0 <= n < i && 0 <= k < MAX_N ==> #[trigger] t@[n]@[k] == at_most(n as nat, k as nat) % (MOD as nat),
            forall|k: int| 0 <= k < MAX_N ==> #[trigger] prev@[k] == cycles((i - 1) as nat, k as nat) % (MOD as nat),
        decreases MAX_N - i,
    {
        let mut row: Vec<i64> = Vec::new();
        let mut curr: Vec<i64> = Vec::new();
        row.push(0);
        curr.push(0);
        let mut sum: i64 = 0;
        let mut j: usize = 1;
        assert(cycles(i as nat, 0) == 0);
        assert(at_most(i as nat, 0) == 0);
        while j < MAX_N
            invariant
                1 <= i < MAX_N,
                1 <= j <= MAX_N,
                prev@.len() == MAX_N,
                forall|k: int| 0 <= k < MAX_N ==> #[trigger] prev@[k] == cycles((i - 1) as nat, k as nat) % (MOD as nat),
                row@.len() == j,
                curr@.len() == j,
                0 <= sum < MOD,
                sum == at_most(i as nat, (j - 1) as nat) % (MOD as nat),
                forall|k: int| 0 <= k < j ==> #[trigger] row@[k] == at_most(i as nat, k as nat) % (MOD as nat),
                forall|k: int| 0 <= k < j ==> #[trigger] curr@[k] == cycles(i as nat, k as nat) % (MOD as nat),
            decreases MAX_N - j,
        {
            let a = prev[j - 1];
            let b = prev[j];
            assert(0 <= (i - 1) as i64 * b < MOD * MOD) by (nonlinear_arith)
                requires
                    0 <= b < MOD,
                    1 <= i < MAX_N,
            ;
            let v = (a + ((i - 1) as i64 * b) % MOD) % MOD;
            proof {
                let ca = cycles((i - 1) as nat, (j - 1) as nat) as int;
                let cb = cycles((i - 1) as nat, j as nat) as int;
                let m = MOD as int;
                lemma_mul_mod_noop_right((i - 1) as int, cb, m);
                lemma_add_mod_noop(ca, (i - 1) * cb, m);
                lemma_mod_bound(ca, m);
                lemma_mod_bound((i - 1) * cb, m);
                assert(cycles(i as nat, j as nat) == ca + (i - 1) * cb);
                assert(v == cycles(i as nat, j as nat) % (MOD as nat));
                lemma_add_mod_noop(at_most(i as nat, (j - 1) as nat) as int, cycles(i as nat, j as nat) as int, m);
            }
            sum = (sum + v) % MOD;
            row.push(sum);
            curr.push(v);
            j = j + 1;
        }
        proof {
            assert(curr@[0] == cycles(i as nat, 0) % (MOD as nat));
        }
        t.push(row);
        prev = curr;
        i = i + 1;
    }
    t
}

proof fn lemma_row_zero(k: nat)
    ensures
        at_most(0, k) == 1,
        cycles(0, k) == if k == 0 { 1nat } else { 0nat },
    decreases k,
{
    if k > 0 {
        lemma_row_zero((k - 1) as nat);
    }
}

} // verus!
