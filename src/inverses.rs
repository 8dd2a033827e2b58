//! `C(N, 2) * sum over k = 1..S of 1 / (k (N - k))` modulo a prime, with the
//! inverses of `1..N` built by the linear recurrence.
use vstd::arithmetic::div_mod::{
    lemma_fundamental_div_mod,
    lemma_mod_bound,
    lemma_mul_mod_noop_left,
    lemma_mul_mod_noop_right,
    lemma_small_mod,
};
use vstd::prelude::*;

verus! {

/// The prime modulus of this solver.
pub const MOD: i64 = 1_000_000_007;

/// `y` is an inverse of `x` modulo MOD.
pub open spec fn inverse_of(x: int, y: int) -> bool {
    0 <= y < MOD && (x * y) % (MOD as int) == 1
}

/// No number in `[2, n]` divides MOD (true of the prime for every `n < MOD`).
pub open spec fn coprime_below(n: int) -> bool {
    forall|i: int| 2 <= i <= n ==> #[trigger] ((MOD as int) % i) != 0
}

/// `inv[i]` for `1 <= i <= n`: `inv[1] = 1`, and
/// `inv[i] = (MOD - (MOD / i) * inv[MOD mod i] mod MOD) mod MOD`.
pub fn inverse_table(n: usize) -> (inv: Vec<i64>)
    requires
        1 <= n < MOD,
    ensures
        inv@.len() == n + 1,
        inv@[0] == 0,
        forall|i: int| 1 <= i <= n ==> 0 <= #[trigger] inv@[i] < MOD,
        coprime_below(n as int) ==> forall|i: int| 1 <= i <= n ==> inverse_of(i, #[trigger] inv@[i] as int),
{
    let mut inv: Vec<i64> = Vec::new();
    inv.push(0);
    inv.push(1);
    assert((1int * 1) % (MOD as int) == 1);
    let mut i: usize = 2;
    while i <= n
        invariant
            1 <= n < MOD,
            2 <= i <= n + 1,
            inv@.len() == i,
            inv@[0] == 0,
            forall|j: int| 1 <= j < i ==> 0 <= #[trigger] inv@[j] < MOD,
            coprime_below(n as int) ==> forall|j: int| 1 <= j < i ==> inverse_of(j, #[trigger] inv@[j] as int),
        decreases n + 1 - i,
    {
        let q = MOD / (i as i64);
        let r = MOD % (i as i64);
        let ir = inv[r as usize];
        assert(0 <= q * ir <= MOD * MOD) by (nonlinear_arith)
            requires
                0 <= q <= MOD,
                0 <= ir < MOD,
        ;
        let v = (MOD - q * ir % MOD) % MOD;
        proof {
            if coprime_below(n as int) {
                lemma_inverse_step(i as int, q as int, r as int, ir as int);
            }
        }
        inv.push(v);
        i = i + 1;
    }
    inv
}

/// One step of the recurrence: with `MOD = q * i + r` and `ir` the inverse of
/// `r`, `-(q * ir)` is the inverse of `i`.
proof fn lemma_inverse_step(i: int, q: int, r: int, ir: int)
    requires
        2 <= i < MOD,
        q == (MOD as int) / i,
        r == (MOD as int) % i,
        r != 0,
        inverse_of(r, ir),
    ensures
        inverse_of(i, (MOD - (q * ir) % (MOD as int)) % (MOD as int)),
{
    let m = MOD as int;
    lemma_fundamental_div_mod(m, i);
    let t = (q * ir) % m;
    lemma_mod_bound(q * ir, m);
    let v = (m - t) % m;
    // i * (m - t) = i * m - i * t, and i * t == i * q * ir == (m - r) * ir (mod m) == -1 (mod m).
    lemma_mul_mod_noop_right(i, q * ir, m);
    assert(i * (q * ir) == m * ir - r * ir) by (nonlinear_arith)
        requires
            m == i * q + r,
    ;
    assert((i * (m - t)) % m == 1) by {
        assert(i * (m - t) == i * m - i * t) by (nonlinear_arith);
        assert((i * t) % m == (i * (q * ir)) % m);
        assert((m * ir - r * ir) % m == (m - 1) % m) by {
            lemma_mod_of_negated(r * ir, ir, m);
        }
        lemma_mod_of_shifted(i * t, i, m);
    }
    lemma_mul_mod_noop_right(i, m - t, m);
}

/// `(m * a - b) mod m` is `m - 1` when `b mod m` is 1.
proof fn lemma_mod_of_negated(b: int, a: int, m: int)
    requires
        m > 1,
        b % m == 1,
    ensures
        (m * a - b) % m == (m - 1) % m,
{
    lemma_fundamental_div_mod(b, m);
    let k = b / m;
    assert(m * a - b == m * (a - k - 1) + (m - 1)) by (nonlinear_arith)
        requires
            b == m * k + 1,
    ;
    lemma_mod_multiples_vanish_plus(a - k - 1, m - 1, m);
}

/// `(m * a + c) mod m == c mod m`.
proof fn lemma_mod_multiples_vanish_plus(a: int, c: int, m: int)
    requires
        m > 0,
    ensures
        (m * a + c) % m == c % m,
{
    vstd::arithmetic::div_mod::lemma_mod_multiples_vanish(a, c, m);
    assert(m * a == a * m) by (nonlinear_arith);
}

/// If `x mod m` is `m - 1` then `(i * m - x) mod m` is 1.
proof fn lemma_mod_of_shifted(x: int, i: int, m: int)
    requires
        m > 1,
        x % m == (m - 1) % m,
    ensures
        (i * m - x) % m == 1,
{
    lemma_small_mod((m - 1) as nat, m as nat);
    lemma_fundamental_div_mod(x, m);
    let k = x / m;
    assert(i * m - x == m * (i - k - 1) + 1) by (nonlinear_arith)
        requires
            x == m * k + (m - 1),
    ;
    lemma_mod_multiples_vanish_plus(i - k - 1, 1, m);
    lemma_small_mod(1, m as nat);
}

/// The inverse of `x` modulo MOD.
pub open spec fn inverse(x: int) -> int {
    choose|y: int| inverse_of(x, y)
}

/// A number has at most one inverse modulo MOD.
proof fn lemma_inverse_unique(x: int, y1: int, y2: int)
    requires
        inverse_of(x, y1),
        inverse_of(x, y2),
    ensures
        y1 == y2,
{
    let m = MOD as int;
    lemma_mul_mod_noop_right(y1, x * y2, m);
    lemma_mul_mod_noop_left(x * y1, y2, m);
    assert(y1 * (x * y2) == (x * y1) * y2) by (nonlinear_arith);
    lemma_small_mod(y1 as nat, m as nat);
    lemma_small_mod(y2 as nat, m as nat);
}

/// The sum of the counts.
pub open spec fn total(counts: Seq<i64>) -> int
    decreases counts.len(),
{
    if counts.len() == 0 {
        0
    } else {
        total(counts.drop_last()) + counts.last()
    }
}

/// The last positive count, 0 if none.
pub open spec fn last_positive(counts: Seq<i64>) -> int
    decreases counts.len(),
{
    if counts.len() == 0 {
        0
    } else if counts.last() > 0 {
        counts.last() as int
    } else {
        last_positive(counts.drop_last())
    }
}

/// `sum over k = 1..s of inverse(k) * inverse(n - k)`, reduced as it goes.
pub open spec fn pair_sum(n: int, s: nat) -> int
    decreases s,
{
    if s == 0 {
        0
    } else {
        (pair_sum(n, (s - 1) as nat) + (inverse(s as int) * inverse(n - s)) % (MOD as int)) % (MOD as int)
    }
}

/// The answer for the given counts: with `N` their sum and `S` that sum
/// without the last positive count, `N (N - 1) / 2 * sum over k = 1..S of
/// 1 / (k (N - k))` modulo MOD, and 0 when `N` or `S` is 0.
pub fn solve(counts: &[i64]) -> (r: i64)
    requires
        forall|i: int| 0 <= i < counts@.len() ==> #[trigger] counts@[i] >= 0,
        total(counts@) < MOD,
    ensures
        ({
            let n = total(counts@);
            let s = n - last_positive(counts@);
            &&& (n == 0 || s == 0) ==> r == 0
            &&& (n > 0 && s > 0 && coprime_below(n)) ==> r == ((n * (n - 1)) % (MOD as int) * inverse(2)) % (MOD as int)
                * pair_sum(n, s as nat) % (MOD as int)
        }),
{
    let mut n: i64 = 0;
    let mut last: i64 = 0;
    let mut i: usize = 0;
    while i < counts.len()
        invariant
            i <= counts@.len(),
            forall|j: int| 0 <= j < counts@.len() ==> #[trigger] counts@[j] >= 0,
            total(counts@) < MOD,
            n == total(counts@.take(i as int)),
            last == last_positive(counts@.take(i as int)),
            0 <= last <= n,
        decreases counts@.len() - i,
    {
        proof {
            lemma_total_prefix(counts@, (i + 1) as int);
            lemma_total_monotone(counts@, (i + 1) as int);
        }
        let val = counts[i];
        n = n + val;
        if val > 0 {
            last = val;
        }
        i = i + 1;
    }
    assert(counts@.take(counts@.len() as int) =~= counts@);
    if n == 0 {
        return 0;
    }
    let s = n - last;
    if s == 0 {
        return 0;
    }
    proof {
        lemma_last_positive_positive(counts@);
    }
    let inv = inverse_table(n as usize);
    let mut sum: i64 = 0;
    let mut k: i64 = 1;
    while k <= s
        invariant
            2 <= n < MOD,
            1 <= s <= n - 1,
            1 <= k <= s + 1,
            inv@.len() == n + 1,
            forall|j: int| 1 <= j <= n ==> 0 <= #[trigger] inv@[j] < MOD,
            coprime_below(n as int) ==> forall|j: int| 1 <= j <= n ==> inverse_of(j, #[trigger] inv@[j] as int),
            0 <= sum < MOD,
            coprime_below(n as int) ==> sum == pair_sum(n as int, (k - 1) as nat),
        decreases s + 1 - k,
    {
        let a = inv[k as usize];
        let b = inv[(n - k) as usize];
        assert(0 <= a * b < MOD * MOD) by (nonlinear_arith)
            requires
                0 <= a < MOD,
                0 <= b < MOD,
        ;
        let term = a * b % MOD;
        proof {
            if coprime_below(n as int) {
                lemma_inverse_unique(k as int, a as int, inverse(k as int));
                lemma_inverse_unique((n - k) as int, b as int, inverse((n - k) as int));
            }
        }
        sum = (sum + term) % MOD;
        k = k + 1;
    }
    assert(0 <= n * (n - 1) < MOD * MOD) by (nonlinear_arith)
        requires
            2 <= n < MOD,
    ;
    let half = inv[2];
    let nn = n * (n - 1) % MOD;
    assert(0 <= nn * half < MOD * MOD) by (nonlinear_arith)
        requires
            0 <= nn < MOD,
            0 <= half < MOD,
    ;
    let coeff = nn * half % MOD;
    proof {
        if coprime_below(n as int) {
            lemma_inverse_unique(2, half as int, inverse(2));
        }
    }
    assert(0 <= coeff * sum < MOD * MOD) by (nonlinear_arith)
        requires
            0 <= coeff < MOD,
            0 <= sum < MOD,
    ;
    coeff * sum % MOD
}

proof fn lemma_total_prefix(counts: Seq<i64>, i: int)
    requires
        0 < i <= counts.len(),
        forall|j: int| 0 <= j < counts.len() ==> #[trigger] counts[j] >= 0,
    ensures
        total(counts.take(i)) == total(counts.take(i - 1)) + counts[i - 1],
        last_positive(counts.take(i)) == if counts[i - 1] > 0 { counts[i - 1] as int } else { last_positive(counts.take(i - 1)) },
        total(counts.take(i - 1)) <= total(counts),
{
    assert(counts.take(i).drop_last() =~= counts.take(i - 1));
    lemma_total_monotone(counts, i - 1);
}

proof fn lemma_total_monotone(counts: Seq<i64>, i: int)
    requires
        0 <= i <= counts.len(),
        forall|j: int| 0 <= j < counts.len() ==> #[trigger] counts[j] >= 0,
    ensures
        total(counts.take(i)) <= total(counts),
    decreases counts.len() - i,
{
    if i < counts.len() {
        lemma_total_monotone(counts, i + 1);
        assert(counts.take(i + 1).drop_last() =~= counts.take(i));
    } else {
        assert(counts.take(i) =~= counts);
    }
}

/// A positive last count is at least 1, and never exceeds the total.
proof fn lemma_last_positive_positive(counts: Seq<i64>)
    requires
        forall|j: int| 0 <= j < counts.len() ==> #[trigger] counts[j] >= 0,
        total(counts) > 0,
    ensures
        last_positive(counts) >= 1,
    decreases counts.len(),
{
    if counts.len() > 0 && counts.last() <= 0 {
        lemma_last_positive_positive(counts.drop_last());
    }
}

} // verus!
