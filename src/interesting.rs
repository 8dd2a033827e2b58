//! k-interesting numbers, products of k distinct factors of at least 2: their
//! generation, per-k prefix counts, and range counts.
use vstd::prelude::*;

verus! {

/// Largest number the rows describe.
pub const MAX_N: usize = 700000;

/// Largest k for which k-interesting numbers up to `MAX_N` exist.
pub const MAX_K: usize = 9;

/// `MAX_K + 1` rows of `MAX_N + 1` counts, each count at most `MAX_N`.
pub open spec fn count_rows(rows: Seq<Vec<i32>>) -> bool {
    &&& rows.len() == MAX_K + 1
    &&& forall|k: int| 0 <= k < rows.len() ==> (#[trigger] rows[k])@.len() == MAX_N + 1
    &&& forall|k: int, x: int| 0 <= k < rows.len() && 0 <= x <= MAX_N ==> 0 <= #[trigger] rows[k]@[x] <= MAX_N
}

/// How many k-interesting numbers lie in `[l, r]`, given rows whose entry
/// `[k][x]` counts those in `[1, x]`: the range is clipped to `[1, MAX_N]`, and
/// is empty when `k` exceeds `MAX_K` or the clipped range is.
pub fn query(prefix_sums: &[Vec<i32>], k: usize, l: usize, r: usize) -> (c: i32)
    requires
        count_rows(prefix_sums@),
    ensures
        ({
            let hi = if r < MAX_N { r as int } else { MAX_N as int };
            let lo = if l > 1 { l as int } else { 1 };
            &&& (k > MAX_K || l > MAX_N || lo > hi) ==> c == 0
            &&& !(k > MAX_K || l > MAX_N || lo > hi) ==> c == prefix_sums@[k as int]@[hi] - prefix_sums@[k as int]@[lo - 1]
        }),
{
    if k > MAX_K || l > MAX_N {
        return 0;
    }
    let r = if r < MAX_N { r } else { MAX_N };
    let l = if l > 1 { l } else { 1 };
    if l > r {
        return 0;
    }
    prefix_sums[k][r] - prefix_sums[k][l - 1]
}

/// Starting from `p` at depth `d`, multiplying by factors of at least `m`, each
/// larger than the one before, with every product at most `limit`, reaches
/// the product `x` after `dd - d` factors.
pub open spec fn reach(p: nat, m: nat, d: nat, limit: nat, dd: nat, x: nat) -> bool
    decreases limit - p,
    via reach_decreases
{
    if p == 0 || m < 2 {
        false
    } else {
        exists|f: nat|
            m <= f && #[trigger] (p * f) <= limit && ((dd == d + 1 && x == p * f) || reach(p * f, f + 1, d + 1, limit, dd, x))
    }
}

#[via_fn]
proof fn reach_decreases(p: nat, m: nat, d: nat, limit: nat, dd: nat, x: nat) {
    if p >= 1 && m >= 2 {
        assert forall|f: nat| m <= f && #[trigger] (p * f) <= limit implies p * f > p && limit - p * f < limit - p by {
            assert(p * f > p) by (nonlinear_arith)
                requires
                    p >= 1,
                    f >= m,
                    m >= 2,
            ;
        }
    }
}

proof fn lemma_reach_unfold(p: nat, m: nat, d: nat, limit: nat, dd: nat, x: nat)
    requires
        p >= 1,
        m >= 2,
    ensures
        reach(p, m, d, limit, dd, x) == exists|f: nat|
            m <= f && #[trigger] (p * f) <= limit && ((dd == d + 1 && x == p * f) || reach(p * f, f + 1, d + 1, limit, dd, x)),
{
}

/// As `reach`, with the first factor below `top`.
pub open spec fn reach_below(p: nat, m: nat, top: nat, d: nat, limit: nat, dd: nat, x: nat) -> bool {
    exists|f: nat|
        m <= f < top && #[trigger] (p * f) <= limit && ((dd == d + 1 && x == p * f) || reach(p * f, f + 1, d + 1, limit, dd, x))
}

/// `x` is k-interesting: for `k = 1` any number from 2 on, else a product of
/// `k` strictly increasing factors of at least 2, at most `MAX_N`.
pub open spec fn interesting(k: nat, x: nat) -> bool {
    if k == 1 {
        x >= 2
    } else {
        reach(1, 2, 0, MAX_N as nat, k, x)
    }
}

/// How many k-interesting numbers lie in `[1, x]`.
pub open spec fn count_upto(k: nat, x: nat) -> int
    decreases x,
{
    if x == 0 {
        0
    } else {
        count_upto(k, (x - 1) as nat) + if interesting(k, x) { 1int } else { 0 }
    }
}

/// `MAX_K + 1` rows of `MAX_N + 1` entries.
pub open spec fn table_shape(t: Seq<Vec<i32>>) -> bool {
    &&& t.len() == MAX_K + 1
    &&& forall|k: int| 0 <= k < t.len() ==> (#[trigger] t[k])@.len() == MAX_N + 1
}

/// Sets entry `[dd][x]` to 1 for every depth `dd` in `[2, MAX_K]` and product
/// `x` that multiplying `product` by increasing factors from `min_factor` on
/// reaches without passing `limit`; leaves every other entry as it was.
pub fn generate(
    product: usize,
    min_factor: usize,
    depth: usize,
    limit: usize,
    prefix_sums: &mut Vec<Vec<i32>>,
)
    requires
        1 <= product <= limit <= MAX_N,
        2 <= min_factor,
        depth <= product,
        table_shape(old(prefix_sums)@),
    ensures
        table_shape(final(prefix_sums)@),
        forall|dd: int, x: int|
            0 <= dd <= MAX_K && 0 <= x <= MAX_N ==> #[trigger] final(prefix_sums)@[dd]@[x] == if 2 <= dd && reach(
                product as nat,
                min_factor as nat,
                depth as nat,
                limit as nat,
                dd as nat,
                x as nat,
            ) {
                1
            } else {
                old(prefix_sums)@[dd]@[x]
            },
    decreases limit - product,
{
    let mut factor = min_factor;
    while product <= limit / factor
        invariant
            1 <= product <= limit <= MAX_N,
            2 <= min_factor <= factor,
            depth <= product,
            table_shape(prefix_sums@),
            forall|dd: int, x: int|
                0 <= dd <= MAX_K && 0 <= x <= MAX_N ==> #[trigger] prefix_sums@[dd]@[x] == if 2 <= dd && reach_below(
                    product as nat,
                    min_factor as nat,
                    factor as nat,
                    depth as nat,
                    limit as nat,
                    dd as nat,
                    x as nat,
                ) {
                    1
                } else {
                    old(prefix_sums)@[dd]@[x]
                },
        decreases limit + 1 - factor,
    {
        proof {
            vstd::arithmetic::div_mod::lemma_fundamental_div_mod(limit as int, factor as int);
            assert(product * factor <= limit) by (nonlinear_arith)
                requires
                    product <= limit / factor,
                    factor >= 2,
                    limit == factor * (limit / factor) + limit % factor,
                    limit % factor >= 0,
            ;
            assert(product * factor > product && factor <= limit) by (nonlinear_arith)
                requires
                    product * factor <= limit,
                    factor >= 2,
                    product >= 1,
            ;
        }
        let new_product = product * factor;
        let new_depth = depth + 1;
        let ghost t0 = prefix_sums@;
        if new_depth >= 2 && new_depth <= MAX_K {
            prefix_sums[new_depth][new_product] = 1;
        }
        let ghost t1 = prefix_sums@;
        generate(new_product, factor + 1, new_depth, limit, prefix_sums);
        proof {
            assert forall|dd: int, x: int| 0 <= dd <= MAX_K && 0 <= x <= MAX_N implies #[trigger] prefix_sums@[dd]@[x]
                == if 2 <= dd && reach_below(
                product as nat,
                min_factor as nat,
                (factor + 1) as nat,
                depth as nat,
                limit as nat,
                dd as nat,
                x as nat,
            ) {
                1
            } else {
                old(prefix_sums)@[dd]@[x]
            } by {
                let rb_old = reach_below(product as nat, min_factor as nat, factor as nat, depth as nat, limit as nat, dd as nat, x as nat);
                let here = (dd == depth + 1 && x == new_product) || reach(new_product as nat, (factor + 1) as nat, (depth + 1) as nat, limit as nat, dd as nat, x as nat);
                let rb_new = reach_below(product as nat, min_factor as nat, (factor + 1) as nat, depth as nat, limit as nat, dd as nat, x as nat);
                if rb_old {
                    let f = choose|f: nat| min_factor <= f < factor && #[trigger] ((product as nat) * f) <= limit && ((dd == depth + 1 && x == (product as nat) * f) || reach((product as nat) * f, f + 1, (depth + 1) as nat, limit as nat, dd as nat, x as nat));
                    assert(rb_new);
                }
                if here {
                    let f = factor as nat;
                    assert((product as nat) * f <= limit);
                    assert(rb_new);
                }
                if rb_new {
                    let f = choose|f: nat| min_factor <= f < factor + 1 && #[trigger] ((product as nat) * f) <= limit && ((dd == depth + 1 && x == (product as nat) * f) || reach((product as nat) * f, f + 1, (depth + 1) as nat, limit as nat, dd as nat, x as nat));
                    if f < factor {
                        assert(rb_old);
                    } else {
                        assert(here);
                    }
                }
                if !(dd == new_depth && x == new_product) {
                    assert(t1[dd]@[x] == t0[dd]@[x]);
                }
            }
        }
        factor = factor + 1;
    }
    proof {
        assert forall|dd: int, x: int| 0 <= dd <= MAX_K && 0 <= x <= MAX_N implies #[trigger] reach_below(
            product as nat,
            min_factor as nat,
            factor as nat,
            depth as nat,
            limit as nat,
            dd as nat,
            x as nat,
        ) == reach(product as nat, min_factor as nat, depth as nat, limit as nat, dd as nat, x as nat) by {
            lemma_reach_unfold(product as nat, min_factor as nat, depth as nat, limit as nat, dd as nat, x as nat);
            if reach(product as nat, min_factor as nat, depth as nat, limit as nat, dd as nat, x as nat) {
                let f = choose|f: nat| min_factor <= f && #[trigger] ((product as nat) * f) <= limit && ((dd == depth + 1 && x == (product as nat) * f) || reach((product as nat) * f, f + 1, (depth + 1) as nat, limit as nat, dd as nat, x as nat));
                if f >= factor {
                    vstd::arithmetic::div_mod::lemma_fundamental_div_mod(limit as int, factor as int);
                    assert(product * f > limit) by (nonlinear_arith)
                        requires
                            product > limit / factor,
                            f >= factor,
                            factor >= 2,
                            limit == factor * (limit / factor) + limit % factor,
                            limit % factor < factor,
                    ;
                }
            }
        }
    }
}

/// Every product reached is at least twice the start.
proof fn lemma_reach_at_least(p: nat, m: nat, d: nat, limit: nat, dd: nat, x: nat)
    requires
        reach(p, m, d, limit, dd, x),
    ensures
        x >= 2 * p,
    decreases limit - p,
{
    let f = choose|f: nat|
        m <= f && #[trigger] (p * f) <= limit && ((dd == d + 1 && x == p * f) || reach(p * f, f + 1, d + 1, limit, dd, x));
    assert(p * f >= 2 * p) by (nonlinear_arith)
        requires
            f >= m,
            m >= 2,
    ;
    if !(dd == d + 1 && x == p * f) {
        assert(p * f > p) by (nonlinear_arith)
            requires
                p >= 1,
                f >= 2,
        ;
        lemma_reach_at_least(p * f, f + 1, d + 1, limit, dd, x);
    }
}

proof fn lemma_count_bound(k: nat, x: nat)
    ensures
        0 <= count_upto(k, x) <= x,
    decreases x,
{
    if x > 0 {
        lemma_count_bound(k, (x - 1) as nat);
    }
}

/// The table whose entry `[k][x]`, for `1 <= k <= MAX_K`, counts the
/// k-interesting numbers in `[1, x]`; row 0 is all zeros.
pub fn precompute() -> (prefix_sums: Vec<Vec<i32>>)
    ensures
        table_shape(prefix_sums@),
        forall|x: int| 0 <= x <= MAX_N ==> #[trigger] prefix_sums@[0]@[x] == 0,
        forall|k: int, x: int|
            1 <= k <= MAX_K && 0 <= x <= MAX_N ==> #[trigger] prefix_sums@[k]@[x] == count_upto(k as nat, x as nat),
{
    let mut t: Vec<Vec<i32>> = Vec::new();
    let mut k: usize = 0;
    while k <= MAX_K
        invariant
            k <= MAX_K + 1,
            t@.len() == k,
            forall|r: int| 0 <= r < k ==> (#[trigger] t@[r])@.len() == MAX_N + 1,
            forall|r: int, x: int| 0 <= r < k && 0 <= x <= MAX_N ==> #[trigger] t@[r]@[x] == 0,
        decreases MAX_K + 1 - k,
    {
        let mut row: Vec<i32> = Vec::new();
        let mut x: usize = 0;
        while x <= MAX_N
            invariant
                x <= MAX_N + 1,
                row@.len() == x,
                forall|y: int| 0 <= y < x ==> #[trigger] row@[y] == 0,
            decreases MAX_N + 1 - x,
        {
            row.push(0);
            x = x + 1;
        }
        t.push(row);
        k = k + 1;
    }
    generate(1, 2, 0, MAX_N, &mut t);
    let mut n: usize = 2;
    while n <= MAX_N
        invariant
            2 <= n <= MAX_N + 1,
            table_shape(t@),
            forall|x: int| 0 <= x <= MAX_N ==> #[trigger] t@[0]@[x] == 0,
            forall|x: int| 0 <= x <= MAX_N ==> #[trigger] t@[1]@[x] == if 2 <= x < n { 1int } else { 0 },
            forall|dd: int, x: int|
                2 <= dd <= MAX_K && 0 <= x <= MAX_N ==> #[trigger] t@[dd]@[x] == if reach(1, 2, 0, MAX_N as nat, dd as nat, x as nat) {
                    1int
                } else {
                    0
                },
        decreases MAX_N + 1 - n,
    {
        let ghost t0 = t@;
        t[1][n] = 1;
        proof {
            assert forall|dd: int, x: int| 0 <= dd <= MAX_K && 0 <= x <= MAX_N && !(dd == 1 && x == n) implies #[trigger] t@[dd]@[x] == t0[dd]@[x] by {}
        }
        n = n + 1;
    }
    proof {
        assert forall|r: int| 1 <= r <= MAX_K implies #[trigger] t@[r]@[0] == 0 by {
            if r >= 2 && reach(1, 2, 0, MAX_N as nat, r as nat, 0) {
                lemma_reach_at_least(1, 2, 0, MAX_N as nat, r as nat, 0);
            }
        }
    }
    let mut k: usize = 1;
    while k <= MAX_K
        invariant
            1 <= k <= MAX_K + 1,
            table_shape(t@),
            forall|x: int| 0 <= x <= MAX_N ==> #[trigger] t@[0]@[x] == 0,
            forall|r: int, x: int|
                1 <= r < k && 0 <= x <= MAX_N ==> #[trigger] t@[r]@[x] == count_upto(r as nat, x as nat),
            forall|r: int, x: int|
                k <= r <= MAX_K && 1 <= x <= MAX_N ==> #[trigger] t@[r]@[x] == if interesting(r as nat, x as nat) { 1int } else { 0 },
            forall|r: int| k <= r <= MAX_K ==> #[trigger] t@[r]@[0] == 0,
        decreases MAX_K + 1 - k,
    {
        let mut n: usize = 1;
        while n <= MAX_N
            invariant
                1 <= k <= MAX_K,
                1 <= n <= MAX_N + 1,
                table_shape(t@),
                forall|x: int| 0 <= x <= MAX_N ==> #[trigger] t@[0]@[x] == 0,
                forall|r: int, x: int|
                    1 <= r < k && 0 <= x <= MAX_N ==> #[trigger] t@[r]@[x] == count_upto(r as nat, x as nat),
                forall|r: int, x: int|
                    k < r <= MAX_K && 1 <= x <= MAX_N ==> #[trigger] t@[r]@[x] == if interesting(r as nat, x as nat) { 1int } else { 0 },
                forall|r: int| k < r <= MAX_K ==> #[trigger] t@[r]@[0] == 0,
                forall|x: int| 0 <= x < n ==> #[trigger] t@[k as int]@[x] == count_upto(k as nat, x as nat),
                forall|x: int| n <= x <= MAX_N ==> #[trigger] t@[k as int]@[x] == if interesting(k as nat, x as nat) { 1int } else { 0 },
            decreases MAX_N + 1 - n,
        {
            let ghost t0 = t@;
            proof {
                lemma_count_bound(k as nat, (n - 1) as nat);
            }
            let v = t[k][n] + t[k][n - 1];
            t[k][n] = v;
            proof {
                assert forall|r: int, x: int| 0 <= r <= MAX_K && 0 <= x <= MAX_N && !(r == k && x == n) implies #[trigger] t@[r]@[x] == t0[r]@[x] by {}
            }
            n = n + 1;
        }
        k = k + 1;
    }
    t
}

} // verus!
