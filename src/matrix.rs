//! Matrix products and powers modulo a prime, for counting the numbers of
//! `n` digits whose every three consecutive digits sum to a good number.
use vstd::arithmetic::div_mod::{
    lemma_add_mod_noop,
    lemma_mod_bound,
    lemma_mul_mod_noop_left,
    lemma_mul_mod_noop_right,
    lemma_small_mod,
};
use std::collections::HashSet;
use vstd::prelude::*;

verus! {

/// The prime modulus of this solver.
pub const MOD: i64 = 998244353;

/// `sum over t < k of a[t] * b[t][j]`
pub open spec fn dot(a: Seq<i64>, b: Seq<Vec<i64>>, j: int, k: nat) -> int
    decreases k,
{
    if k == 0 {
        0
    } else {
        dot(a, b, j, (k - 1) as nat) + a[k - 1] * b[k - 1]@[j]
    }
}

/// Entries in `[0, MOD)`, every row of length at least `cols`.
pub open spec fn reduced_rows(m: Seq<Vec<i64>>, cols: nat) -> bool {
    &&& forall|i: int| 0 <= i < m.len() ==> (#[trigger] m[i])@.len() >= cols
    &&& forall|i: int, j: int| 0 <= i < m.len() && 0 <= j < m[i]@.len() ==> 0 <= #[trigger] m[i]@[j] < MOD
}

/// The product `a * b` modulo MOD, where `a` has as many columns as `b` has
/// rows and the width of `b` is that of its first row.
pub fn matrix_multiply(a: &[Vec<i64>], b: &[Vec<i64>]) -> (r: Vec<Vec<i64>>)
    requires
        b@.len() > 0,
        reduced_rows(a@, b@.len()),
        reduced_rows(b@, b@[0]@.len()),
    ensures
        r@.len() == a@.len(),
        forall|i: int| 0 <= i < a@.len() ==> (#[trigger] r@[i])@.len() == b@[0]@.len(),
        forall|i: int, j: int|
            0 <= i < a@.len() && 0 <= j < b@[0]@.len() ==> #[trigger] r@[i]@[j] == dot(a@[i]@, b@, j, b@.len() as nat) % (MOD as int),
{
    let n = a.len();
    let m = b[0].len();
    let k = b.len();
    let mut r: Vec<Vec<i64>> = Vec::new();
    let mut i: usize = 0;
    while i < n
        invariant
            n == a@.len(),
            m == b@[0]@.len(),
            k == b@.len(),
            k > 0,
            reduced_rows(a@, k as nat),
            reduced_rows(b@, m as nat),
            i <= n,
            r@.len() == i,
            forall|i2: int| 0 <= i2 < i ==> (#[trigger] r@[i2])@.len() == m,
            forall|i2: int, j: int|
                0 <= i2 < i && 0 <= j < m ==> #[trigger] r@[i2]@[j] == dot(a@[i2]@, b@, j, k as nat) % (MOD as int),
        decreases n - i,
    {
        let mut row: Vec<i64> = Vec::new();
        let mut j: usize = 0;
        while j < m
            invariant
                n == a@.len(),
                m == b@[0]@.len(),
                k == b@.len(),
                reduced_rows(a@, k as nat),
                reduced_rows(b@, m as nat),
                i < n,
                j <= m,
                row@.len() == j,
                forall|j2: int| 0 <= j2 < j ==> #[trigger] row@[j2] == dot(a@[i as int]@, b@, j2, k as nat) % (MOD as int),
            decreases m - j,
        {
            let mut sum: i64 = 0;
            let mut t: usize = 0;
            while t < k
                invariant
                    m == b@[0]@.len(),
                    k == b@.len(),
                    reduced_rows(a@, k as nat),
                    reduced_rows(b@, m as nat),
                    i < a@.len(),
                    j < m,
                    t <= k,
                    0 <= sum < MOD,
                    sum == dot(a@[i as int]@, b@, j as int, t as nat) % (MOD as int),
                decreases k - t,
            {
                let x = a[i][t];
                let y = b[t][j];
                assert(0 <= x * y < MOD * MOD) by (nonlinear_arith)
                    requires
                        0 <= x < MOD,
                        0 <= y < MOD,
                ;
                let p = x * y % MOD;
                proof {
                    let d = dot(a@[i as int]@, b@, j as int, t as nat);
                    lemma_add_mod_noop(d, x * y, MOD as int);
                    lemma_mod_bound(d, MOD as int);
                    assert(sum + p == (d % (MOD as int)) + (x * y) % (MOD as int));
                }
                sum = (sum + p) % MOD;
                t = t + 1;
            }
            row.push(sum);
            j = j + 1;
        }
        r.push(row);
        proof {
            assert forall|i2: int, j2: int|
                0 <= i2 <= i && 0 <= j2 < m implies #[trigger] r@[i2]@[j2] == dot(a@[i2]@, b@, j2, k as nat) % (MOD as int) by {}
        }
        i = i + 1;
    }
    r
}

/// The sum of the entries.
pub open spec fn total(s: Seq<int>) -> int
    decreases s.len(),
{
    if s.len() == 0 {
        0
    } else {
        total(s.drop_last()) + s.last()
    }
}

/// A square matrix of order `n` with entries in `[0, MOD)`.
pub open spec fn square(m: Seq<Seq<int>>, n: nat) -> bool {
    &&& m.len() == n
    &&& forall|i: int| 0 <= i < n ==> (#[trigger] m[i]).len() == n
    &&& forall|i: int, j: int| 0 <= i < n && 0 <= j < n ==> 0 <= #[trigger] m[i][j] < MOD
}

/// The terms `a[i][t] * b[t][j]` of one entry of a product.
pub open spec fn terms(a: Seq<Seq<int>>, b: Seq<Seq<int>>, n: nat, i: int, j: int) -> Seq<int> {
    Seq::new(n, |t: int| a[i][t] * b[t][j])
}

/// The product of two matrices of order `n`, modulo MOD.
pub open spec fn mat_mul(a: Seq<Seq<int>>, b: Seq<Seq<int>>, n: nat) -> Seq<Seq<int>> {
    Seq::new(n, |i: int| Seq::new(n, |j: int| total(terms(a, b, n, i, j)) % (MOD as int)))
}

/// The identity matrix of order `n`.
pub open spec fn identity(n: nat) -> Seq<Seq<int>> {
    Seq::new(n, |i: int| Seq::new(n, |j: int| if i == j { 1int } else { 0 }))
}

/// `a^k` modulo MOD.
pub open spec fn mat_pow(a: Seq<Seq<int>>, n: nat, k: nat) -> Seq<Seq<int>>
    decreases k,
{
    if k == 0 {
        identity(n)
    } else {
        mat_mul(mat_pow(a, n, (k - 1) as nat), a, n)
    }
}

/// The entries of a matrix held in vectors.
pub open spec fn ents(m: Seq<Vec<i64>>) -> Seq<Seq<int>> {
    Seq::new(m.len(), |i: int| Seq::new(m[i]@.len(), |j: int| m[i]@[j] as int))
}

/// Scaling every entry scales the sum.
proof fn lemma_total_scale(s: Seq<int>, r: Seq<int>, c: int)
    requires
        r.len() == s.len(),
        forall|t: int| 0 <= t < s.len() ==> #[trigger] r[t] == s[t] * c,
    ensures
        total(r) == total(s) * c,
    decreases s.len(),
{
    if s.len() > 0 {
        lemma_total_scale(s.drop_last(), r.drop_last(), c);
        assert(total(s.drop_last()) * c + s.last() * c == (total(s.drop_last()) + s.last()) * c) by (nonlinear_arith);
    }
}

/// Adding two sequences entrywise adds their sums.
proof fn lemma_total_add(s1: Seq<int>, s2: Seq<int>, r: Seq<int>)
    requires
        s1.len() == s2.len(),
        r.len() == s1.len(),
        forall|t: int| 0 <= t < r.len() ==> #[trigger] r[t] == s1[t] + s2[t],
    ensures
        total(r) == total(s1) + total(s2),
    decreases r.len(),
{
    if r.len() > 0 {
        lemma_total_add(s1.drop_last(), s2.drop_last(), r.drop_last());
    }
}

/// Entries equal modulo MOD give sums equal modulo MOD.
proof fn lemma_total_mod(s: Seq<int>, r: Seq<int>)
    requires
        r.len() == s.len(),
        forall|t: int| 0 <= t < s.len() ==> #[trigger] (r[t] % (MOD as int)) == s[t] % (MOD as int),
    ensures
        total(r) % (MOD as int) == total(s) % (MOD as int),
    decreases s.len(),
{
    let m = MOD as int;
    if s.len() > 0 {
        lemma_total_mod(s.drop_last(), r.drop_last());
        lemma_add_mod_noop(total(r.drop_last()), r.last(), m);
        lemma_add_mod_noop(total(s.drop_last()), s.last(), m);
    }
}

/// Exchanging the order of a double sum over a rectangular table.
proof fn lemma_total_swap(h: Seq<Seq<int>>, rows: nat, cols: nat)
    requires
        h.len() == rows,
        forall|t: int| 0 <= t < rows ==> (#[trigger] h[t]).len() == cols,
    ensures
        total(Seq::new(cols, |s: int| total(Seq::new(rows, |t: int| h[t][s])))) == total(
            Seq::new(rows, |t: int| total(h[t])),
        ),
    decreases cols,
{
    let left = Seq::new(cols, |s: int| total(Seq::new(rows, |t: int| h[t][s])));
    let right = Seq::new(rows, |t: int| total(h[t]));
    if cols == 0 {
        lemma_total_zero(right);
    } else {
        let h2 = Seq::new(rows, |t: int| h[t].drop_last());
        lemma_total_swap(h2, rows, (cols - 1) as nat);
        let left2 = Seq::new((cols - 1) as nat, |s: int| total(Seq::new(rows, |t: int| h2[t][s])));
        assert(left.drop_last() =~= left2) by {
            assert forall|s: int| 0 <= s < cols - 1 implies #[trigger] left.drop_last()[s] == left2[s] by {
                assert(Seq::new(rows, |t: int| h[t][s]) =~= Seq::new(rows, |t: int| h2[t][s]));
            }
        }
        let right2 = Seq::new(rows, |t: int| total(h2[t]));
        let lastcol = Seq::new(rows, |t: int| h[t][cols - 1]);
        assert forall|t: int| 0 <= t < rows implies #[trigger] right[t] == right2[t] + lastcol[t] by {
            assert(h[t].drop_last() == h2[t]);
        }
        lemma_total_add(right2, lastcol, right);
    }
}

proof fn lemma_total_zero(s: Seq<int>)
    requires
        forall|t: int| 0 <= t < s.len() ==> #[trigger] s[t] == 0,
    ensures
        total(s) == 0,
    decreases s.len(),
{
    if s.len() > 0 {
        lemma_total_zero(s.drop_last());
    }
}

/// A sum with a single nonzero entry.
proof fn lemma_total_single(s: Seq<int>, i: int)
    requires
        0 <= i < s.len(),
        forall|t: int| 0 <= t < s.len() && t != i ==> #[trigger] s[t] == 0,
    ensures
        total(s) == s[i],
    decreases s.len(),
{
    if i < s.len() - 1 {
        lemma_total_single(s.drop_last(), i);
    } else {
        lemma_total_zero(s.drop_last());
    }
}

proof fn lemma_mul_square(a: Seq<Seq<int>>, b: Seq<Seq<int>>, n: nat)
    ensures
        square(mat_mul(a, b, n), n),
{
    assert forall|i: int, j: int| 0 <= i < n && 0 <= j < n implies 0 <= #[trigger] mat_mul(a, b, n)[i][j] < MOD by {
        lemma_mod_bound(total(terms(a, b, n, i, j)), MOD as int);
    }
}

/// The product is associative.
proof fn lemma_mul_assoc(a: Seq<Seq<int>>, b: Seq<Seq<int>>, c: Seq<Seq<int>>, n: nat)
    ensures
        mat_mul(mat_mul(a, b, n), c, n) =~~= mat_mul(a, mat_mul(b, c, n), n),
{
    let m = MOD as int;
    let ab = mat_mul(a, b, n);
    let bc = mat_mul(b, c, n);
    assert forall|i: int, j: int| 0 <= i < n && 0 <= j < n implies #[trigger] mat_mul(ab, c, n)[i][j] == mat_mul(a, bc, n)[i][j] by {
        // h[t][s] = a[i][t] * b[t][s] * c[s][j]
        let h = Seq::new(n, |t: int| Seq::new(n, |s: int| a[i][t] * b[t][s] * c[s][j]));
        // Left: sum over s of (sum over t of a b) mod m, times c.
        let l1 = terms(ab, c, n, i, j);
        let l2 = Seq::new(n, |s: int| total(terms(a, b, n, i, s)) * c[s][j]);
        assert forall|s: int| 0 <= s < n implies #[trigger] (l1[s] % m) == l2[s] % m by {
            lemma_mul_mod_noop_left(total(terms(a, b, n, i, s)), c[s][j], m);
            vstd::arithmetic::div_mod::lemma_mod_mod(total(terms(a, b, n, i, s)), m, 1);
            lemma_mul_mod_noop_left(total(terms(a, b, n, i, s)) % m, c[s][j], m);
            assert(l1[s] == (total(terms(a, b, n, i, s)) % m) * c[s][j]);
        }
        lemma_total_mod(l2, l1);
        let l3 = Seq::new(n, |s: int| total(Seq::new(n, |t: int| h[t][s])));
        assert forall|s: int| 0 <= s < n implies #[trigger] l2[s] == l3[s] by {
            lemma_total_scale(terms(a, b, n, i, s), Seq::new(n, |t: int| h[t][s]), c[s][j]);
        }
        assert(l2 =~= l3);
        lemma_total_swap(h, n, n);
        // Right: sum over t of a times (sum over s of b c) mod m.
        let r1 = terms(a, bc, n, i, j);
        let r2 = Seq::new(n, |t: int| a[i][t] * total(terms(b, c, n, t, j)));
        assert forall|t: int| 0 <= t < n implies #[trigger] (r1[t] % m) == r2[t] % m by {
            lemma_mul_mod_noop_right(a[i][t], total(terms(b, c, n, t, j)), m);
            assert(r1[t] == a[i][t] * (total(terms(b, c, n, t, j)) % m));
        }
        lemma_total_mod(r2, r1);
        let r3 = Seq::new(n, |t: int| total(h[t]));
        assert forall|t: int| 0 <= t < n implies #[trigger] r2[t] == r3[t] by {
            lemma_total_scale(terms(b, c, n, t, j), Seq::new(n, |s: int| b[t][s] * c[s][j] * a[i][t]), a[i][t]);
            assert forall|s: int| 0 <= s < n implies #[trigger] h[t][s] == b[t][s] * c[s][j] * a[i][t] by {
                assert(a[i][t] * b[t][s] * c[s][j] == b[t][s] * c[s][j] * a[i][t]) by (nonlinear_arith);
            }
            assert(h[t] =~= Seq::new(n, |s: int| b[t][s] * c[s][j] * a[i][t]));
            assert(total(terms(b, c, n, t, j)) * a[i][t] == a[i][t] * total(terms(b, c, n, t, j))) by (nonlinear_arith);
        }
        assert(r2 =~= r3);
    }
}

/// The identity is neutral on both sides.
proof fn lemma_mul_identity(a: Seq<Seq<int>>, n: nat)
    requires
        square(a, n),
    ensures
        mat_mul(identity(n), a, n) =~~= a,
        mat_mul(a, identity(n), n) =~~= a,
{
    assert forall|i: int, j: int| 0 <= i < n && 0 <= j < n implies #[trigger] mat_mul(identity(n), a, n)[i][j] == a[i][j] by {
        lemma_total_single(terms(identity(n), a, n, i, j), i);
        lemma_small_mod(a[i][j] as nat, MOD as nat);
    }
    assert forall|i: int, j: int| 0 <= i < n && 0 <= j < n implies #[trigger] mat_mul(a, identity(n), n)[i][j] == a[i][j] by {
        lemma_total_single(terms(a, identity(n), n, i, j), j);
        lemma_small_mod(a[i][j] as nat, MOD as nat);
    }
}

proof fn lemma_power_square(a: Seq<Seq<int>>, n: nat, k: nat)
    ensures
        square(mat_pow(a, n, k), n),
{
    if k > 0 {
        lemma_mul_square(mat_pow(a, n, (k - 1) as nat), a, n);
    }
}

/// `a^(x + y) = a^x * a^y`
proof fn lemma_power_add(a: Seq<Seq<int>>, n: nat, x: nat, y: nat)
    requires
        square(a, n),
    ensures
        mat_pow(a, n, x + y) == mat_mul(mat_pow(a, n, x), mat_pow(a, n, y), n),
    decreases y,
{
    lemma_power_square(a, n, x);
    if y == 0 {
        lemma_mul_identity(mat_pow(a, n, x), n);
        assert(x + y == x);
    } else {
        lemma_power_add(a, n, x, (y - 1) as nat);
        lemma_mul_assoc(mat_pow(a, n, x), mat_pow(a, n, (y - 1) as nat), a, n);
        assert((x + y - 1) as nat == x + (y - 1) as nat);
        assert(mat_pow(a, n, x + y) == mat_mul(mat_pow(a, n, (x + y - 1) as nat), a, n));
    }
}

/// `(a * a)^k = a^(2k)`
proof fn lemma_power_double(a: Seq<Seq<int>>, n: nat, k: nat)
    requires
        square(a, n),
    ensures
        mat_pow(mat_mul(a, a, n), n, k) == mat_pow(a, n, 2 * k),
    decreases k,
{
    if k > 0 {
        lemma_power_double(a, n, (k - 1) as nat);
        lemma_power_square(a, n, (2 * k - 2) as nat);
        lemma_mul_assoc(mat_pow(a, n, (2 * k - 2) as nat), a, a, n);
        assert((2 * (k - 1)) as nat == (2 * k - 2) as nat);
        assert(mat_pow(a, n, 2 * k) == mat_mul(mat_pow(a, n, (2 * k - 1) as nat), a, n));
        assert(mat_pow(a, n, (2 * k - 1) as nat) == mat_mul(mat_pow(a, n, (2 * k - 2) as nat), a, n));
    }
}

/// The running dot product of `matrix_multiply` is the sum of the product's terms.
proof fn lemma_dot_total(a: Seq<Vec<i64>>, b: Seq<Vec<i64>>, n: nat, i: int, j: int, k: nat)
    requires
        a.len() == n,
        b.len() == n,
        0 <= i < n,
        0 <= j < n,
        k <= n,
        forall|r: int| 0 <= r < n ==> (#[trigger] a[r])@.len() == n,
        forall|r: int| 0 <= r < n ==> (#[trigger] b[r])@.len() == n,
    ensures
        dot(a[i]@, b, j, k) == total(terms(ents(a), ents(b), n, i, j).take(k as int)),
    decreases k,
{
    let tm = terms(ents(a), ents(b), n, i, j);
    if k > 0 {
        lemma_dot_total(a, b, n, i, j, (k - 1) as nat);
        assert(tm.take(k as int).drop_last() =~= tm.take(k - 1));
        assert(ents(a)[i][k - 1] == a[i]@[k - 1]);
        assert(ents(b)[k - 1][j] == b[k - 1]@[j]);
        assert(tm.take(k as int).last() == tm[k - 1]);
    } else {
        assert(tm.take(0) =~= Seq::<int>::empty());
    }
}

/// What `matrix_multiply` returns on square matrices is their product.
proof fn lemma_product_matches(a: Seq<Vec<i64>>, b: Seq<Vec<i64>>, r: Seq<Vec<i64>>, n: nat)
    requires
        square(ents(a), n),
        square(ents(b), n),
        r.len() == n,
        forall|i: int| 0 <= i < n ==> (#[trigger] r[i])@.len() == n,
        forall|i: int, j: int| 0 <= i < n && 0 <= j < n ==> #[trigger] r[i]@[j] == dot(a[i]@, b, j, n) % (MOD as int),
    ensures
        ents(r) =~~= mat_mul(ents(a), ents(b), n),
        square(ents(r), n),
{
    assert forall|i: int| 0 <= i < n implies (#[trigger] a[i])@.len() == n by {
        assert(ents(a)[i].len() == n);
    }
    assert forall|i: int| 0 <= i < n implies (#[trigger] b[i])@.len() == n by {
        assert(ents(b)[i].len() == n);
    }
    assert forall|i: int, j: int| 0 <= i < n && 0 <= j < n implies #[trigger] ents(r)[i][j] == mat_mul(ents(a), ents(b), n)[i][j] by {
        lemma_dot_total(a, b, n, i, j, n);
        assert(terms(ents(a), ents(b), n, i, j).take(n as int) =~= terms(ents(a), ents(b), n, i, j));
    }
    lemma_mul_square(ents(a), ents(b), n);
}

/// A square matrix of reduced entries meets the shape `matrix_multiply` asks for.
proof fn lemma_square_rows(a: Seq<Vec<i64>>, n: nat)
    requires
        square(ents(a), n),
    ensures
        reduced_rows(a, n),
        a.len() == n,
        forall|i: int| 0 <= i < n ==> (#[trigger] a[i])@.len() == n,
{
    assert forall|i: int| 0 <= i < n implies (#[trigger] a[i])@.len() == n by {
        assert(ents(a)[i].len() == n);
    }
    assert forall|i: int, j: int| 0 <= i < a.len() && 0 <= j < a[i]@.len() implies 0 <= #[trigger] a[i]@[j] < MOD by {
        assert(ents(a)[i][j] == a[i]@[j]);
    }
}

/// `m^power` modulo MOD, by repeated squaring.
pub fn matrix_power(m: &[Vec<i64>], power: i64) -> (r: Vec<Vec<i64>>)
    requires
        m@.len() >= 1,
        square(ents(m@), m@.len() as nat),
        power >= 0,
    ensures
        r@.len() == m@.len(),
        ents(r@) == mat_pow(ents(m@), m@.len() as nat, power as nat),
{
    let n = m.len();
    let ghost nn = n as nat;
    let ghost target = mat_pow(ents(m@), nn, power as nat);
    let mut result: Vec<Vec<i64>> = Vec::new();
    let mut base: Vec<Vec<i64>> = Vec::new();
    proof {
        lemma_square_rows(m@, nn);
    }
    let mut i: usize = 0;
    while i < n
        invariant
            n == m@.len(),
            nn == n,
            i <= n,
            result@.len() == i,
            base@.len() == i,
            forall|r: int| 0 <= r < n ==> (#[trigger] m@[r])@.len() == n,
            forall|r: int| 0 <= r < i ==> (#[trigger] result@[r])@.len() == n,
            forall|r: int| 0 <= r < i ==> (#[trigger] base@[r])@.len() == n,
            forall|r: int, c: int| 0 <= r < i && 0 <= c < n ==> #[trigger] result@[r]@[c] == if r == c { 1i64 } else { 0 },
            forall|r: int, c: int| 0 <= r < i && 0 <= c < n ==> #[trigger] base@[r]@[c] == m@[r]@[c],
        decreases n - i,
    {
        let mut row: Vec<i64> = Vec::new();
        let mut copy: Vec<i64> = Vec::new();
        let mut j: usize = 0;
        while j < n
            invariant
                n == m@.len(),
                i < n,
                j <= n,
                row@.len() == j,
                copy@.len() == j,
                m@[i as int]@.len() == n,
                forall|c: int| 0 <= c < j ==> #[trigger] row@[c] == if i == c { 1i64 } else { 0 },
                forall|c: int| 0 <= c < j ==> #[trigger] copy@[c] == m@[i as int]@[c],
            decreases n - j,
        {
            row.push(if i == j { 1 } else { 0 });
            copy.push(m[i][j]);
            j = j + 1;
        }
        result.push(row);
        base.push(copy);
        i = i + 1;
    }
    proof {
        assert(ents(result@) =~~= identity(nn));
        assert forall|r: int| 0 <= r < n implies #[trigger] ents(base@)[r] =~= ents(m@)[r] by {}
        assert(ents(base@) =~~= ents(m@));
        lemma_power_square(ents(m@), nn, power as nat);
        lemma_mul_identity(target, nn);
    }
    let mut p = power;
    while p > 0
        invariant
            n == m@.len(),
            nn == n,
            n >= 1,
            p >= 0,
            result@.len() == n,
            base@.len() == n,
            square(ents(result@), nn),
            square(ents(base@), nn),
            mat_mul(ents(result@), mat_pow(ents(base@), nn, p as nat), nn) == target,
        decreases p,
    {
        let ghost r0 = ents(result@);
        let ghost b0 = ents(base@);
        proof {
            lemma_square_rows(result@, nn);
            lemma_square_rows(base@, nn);
            lemma_power_double(b0, nn, (p / 2) as nat);
            lemma_mul_square(b0, b0, nn);
            lemma_power_square(b0, nn, (2 * (p / 2)) as nat);
        }
        let odd = p & 1;
        assert(odd == p % 2) by (bit_vector)
            requires
                odd == p & 1,
                p >= 0,
        ;
        if odd == 1 {
            let product = matrix_multiply(result.as_slice(), base.as_slice());
            proof {
                lemma_product_matches(result@, base@, product@, nn);
                // r0 * b0^p = r0 * (b0 * b0^(2 (p/2))) = (r0 * b0) * (b0 * b0)^(p/2)
                lemma_power_add(b0, nn, 1, (2 * (p / 2)) as nat);
                assert(mat_pow(b0, nn, 0) == identity(nn));
                assert(mat_pow(b0, nn, 1) == mat_mul(mat_pow(b0, nn, 0), b0, nn));
                lemma_mul_identity(b0, nn);
                assert((1 + 2 * (p / 2)) as nat == p as nat);
                lemma_mul_assoc(r0, b0, mat_pow(b0, nn, (2 * (p / 2)) as nat), nn);
            }
            result = product;
        } else {
            proof {
                assert((2 * (p / 2)) as nat == p as nat);
            }
        }
        let squared = matrix_multiply(base.as_slice(), base.as_slice());
        proof {
            lemma_product_matches(base@, base@, squared@, nn);
        }
        base = squared;
        let half = p >> 1;
        assert(half == p / 2) by (bit_vector)
            requires
                half == p >> 1,
                p >= 0,
        ;
        p = half;
    }
    proof {
        lemma_mul_identity(ents(result@), nn);
        assert(ents(result@) =~~= target);
    }
    result
}

/// The transitions between two-digit states `d1 d2 -> d2 d3`, allowed when
/// `d1 + d2 + d3` is good.
pub open spec fn transitions(good: Set<i32>) -> Seq<Seq<int>> {
    Seq::new(
        100,
        |f: int|
            Seq::new(
                100,
                |t: int|
                    if t / 10 == f % 10 && good.contains((f / 10 + f % 10 + t % 10) as i32) {
                        1int
                    } else {
                        0
                    },
            ),
    )
}

/// The sum of the rows `10..k` of `p` (states whose first digit is not 0).
pub open spec fn rows_from_ten(p: Seq<Seq<int>>, k: nat) -> int {
    total(Seq::new(k, |i: int| if i >= 10 { total(p[i]) } else { 0 }))
}

/// How many numbers of `n` digits, without a leading zero, have every three
/// consecutive digits summing to a good number, modulo MOD; 0 for `n < 3`.
pub fn solve(n: i64, good: &HashSet<i32>) -> (r: i64)
    ensures
        n < 3 ==> r == 0,
        n >= 3 ==> r == rows_from_ten(mat_pow(transitions(good@), 100, (n - 2) as nat), 100) % (MOD as int),
{
    if n < 3 {
        return 0;
    }
    let mut m: Vec<Vec<i64>> = Vec::new();
    let mut f: usize = 0;
    while f < 100
        invariant
            f <= 100,
            m@.len() == f,
            forall|r: int| 0 <= r < f ==> (#[trigger] m@[r])@.len() == 100,
            forall|r: int, c: int| 0 <= r < f && 0 <= c < 100 ==> #[trigger] m@[r]@[c] == transitions(good@)[r][c],
        decreases 100 - f,
    {
        let mut row: Vec<i64> = Vec::new();
        let mut t: usize = 0;
        while t < 100
            invariant
                f < 100,
                t <= 100,
                row@.len() == t,
                forall|c: int| 0 <= c < t ==> #[trigger] row@[c] == transitions(good@)[f as int][c],
            decreases 100 - t,
        {
            let mut v: i64 = 0;
            if t / 10 == f % 10 {
                let sum = (f / 10 + f % 10 + t % 10) as i32;
                if good.contains(&sum) {
                    v = 1;
                }
            }
            row.push(v);
            t = t + 1;
        }
        m.push(row);
        f = f + 1;
    }
    let ghost tr = transitions(good@);
    proof {
        assert(ents(m@) =~~= tr) by {
            assert forall|r: int| 0 <= r < 100 implies #[trigger] ents(m@)[r] =~= tr[r] by {}
        }
    }
    let mp = matrix_power(m.as_slice(), n - 2);
    let ghost pw = mat_pow(tr, 100, (n - 2) as nat);
    proof {
        lemma_power_square(tr, 100, (n - 2) as nat);
        assert(ents(mp@) == pw);
    }
    let mut result: i64 = 0;
    let mut i: usize = 0;
    while i < 100
        invariant
            i <= 100,
            mp@.len() == 100,
            ents(mp@) == pw,
            square(pw, 100),
            0 <= result < MOD,
            result == rows_from_ten(pw, i as nat) % (MOD as int),
        decreases 100 - i,
    {
        let mut j: usize = 0;
        let ghost base = rows_from_ten(pw, i as nat);
        while j < 100
            invariant
                i < 100,
                j <= 100,
                mp@.len() == 100,
                ents(mp@) == pw,
                square(pw, 100),
                0 <= result < MOD,
                base == rows_from_ten(pw, i as nat),
                result == (base + if i >= 10 { total(pw[i as int].take(j as int)) } else { 0 }) % (MOD as int),
            decreases 100 - j,
        {
            let ghost prev = if i >= 10 { total(pw[i as int].take(j as int)) } else { 0 };
            assert(pw[i as int].len() == 100);
            assert(mp@[i as int]@.len() == 100) by {
                assert(ents(mp@)[i as int].len() == mp@[i as int]@.len());
            }
            let x = mp[i][j];
            assert(x == pw[i as int][j as int]) by {
                assert(ents(mp@)[i as int][j as int] == x);
            }
            let s: i64 = if i >= 10 { 1 } else { 0 };
            let term = s * x % MOD;
            proof {
                let m = MOD as int;
                assert(pw[i as int].take(j + 1).drop_last() =~= pw[i as int].take(j as int));
                lemma_add_mod_noop(base + prev, s * x, m);
                lemma_mod_bound(base + prev, m);
                lemma_small_mod(x as nat, m as nat);
                if i >= 10 {
                    assert(s * x == x);
                } else {
                    assert(s * x == 0);
                }
                lemma_add_mod_noop(result as int, term as int, m);
            }
            result = (result + term) % MOD;
            j = j + 1;
        }
        proof {
            assert(pw[i as int].take(100) =~= pw[i as int]);
            let rows = Seq::new((i + 1) as nat, |r: int| if r >= 10 { total(pw[r]) } else { 0 });
            assert(rows.drop_last() =~= Seq::new(i as nat, |r: int| if r >= 10 { total(pw[r]) } else { 0 }));
        }
        i = i + 1;
    }
    result
}

} // verus!
