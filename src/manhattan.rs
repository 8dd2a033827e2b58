//! The sum of Manhattan distances from a moving point to fixed markers, after
//! every move, from sorted coordinates and their prefix sums.
use vstd::prelude::*;
use vstd::std_specs::iter::IteratorSpec;

verus! {

broadcast use vstd::seq_lib::group_to_multiset_ensures;

pub open spec fn sorted(s: Seq<i32>) -> bool {
    forall|i: int, j: int| 0 <= i <= j < s.len() ==> #[trigger] s[i] <= #[trigger] s[j]
}

/// Relies on `slice::sort` from std: the values end up in ascending order,
/// the same values as before.
#[verifier::external_body]
fn sort_values(v: &mut Vec<i32>)
    ensures
        final(v)@.len() == old(v)@.len(),
        sorted(final(v)@),
        final(v)@.to_multiset() == old(v)@.to_multiset(),
{
    v.sort();
}

pub open spec fn abs(x: int) -> int {
    if x >= 0 {
        x
    } else {
        -x
    }
}

/// `sum over x in s of |c - x|`
pub open spec fn dist_sum(c: int, s: Seq<i32>) -> int
    decreases s.len(),
{
    if s.len() == 0 {
        0
    } else {
        dist_sum(c, s.drop_last()) + abs(c - s.last())
    }
}

/// The sum of the first `k` entries.
pub open spec fn prefix(s: Seq<i32>, k: int) -> int
    decreases k,
{
    if k <= 0 {
        0
    } else {
        prefix(s, k - 1) + s[k - 1]
    }
}

/// The point's coordinate after the first `t` moves: `up` adds one, `down` subtracts one.
pub open spec fn coordinate(cmds: Seq<char>, t: int, up: char, down: char) -> int
    decreases t,
{
    if t <= 0 {
        0
    } else {
        coordinate(cmds, t - 1, up, down) + if cmds[t - 1] == up {
            1int
        } else if cmds[t - 1] == down {
            -1int
        } else {
            0
        }
    }
}

proof fn lemma_dist_sum_remove(c: int, s: Seq<i32>, i: int)
    requires
        0 <= i < s.len(),
    ensures
        dist_sum(c, s) == dist_sum(c, s.remove(i)) + abs(c - s[i]),
    decreases s.len(),
{
    if i < s.len() - 1 {
        lemma_dist_sum_remove(c, s.drop_last(), i);
        assert(s.remove(i).drop_last() =~= s.drop_last().remove(i));
        assert(s.remove(i).last() == s.last());
    } else {
        assert(s.remove(i) =~= s.drop_last());
    }
}

/// The distance sum depends on the multiset of values only.
proof fn lemma_dist_sum_perm(c: int, s: Seq<i32>, t: Seq<i32>)
    requires
        s.to_multiset() == t.to_multiset(),
    ensures
        dist_sum(c, s) == dist_sum(c, t),
    decreases s.len(),
{
    assert(s.len() == t.len()) by {
        assert(s.len() == s.to_multiset().len());
        assert(t.len() == t.to_multiset().len());
    }
    if s.len() > 0 {
        let x = s.last();
        assert(s =~= s.drop_last().push(x));
        assert(s.to_multiset() == s.drop_last().to_multiset().insert(x));
        assert(t.to_multiset().count(x) > 0);
        assert(t.contains(x));
        let i = choose|i: int| 0 <= i < t.len() && t[i] == x;
        assert(t.remove(i).to_multiset() == t.to_multiset().remove(x));
        assert(s.drop_last().to_multiset() =~= t.remove(i).to_multiset());
        lemma_dist_sum_perm(c, s.drop_last(), t.remove(i));
        lemma_dist_sum_remove(c, t, i);
    }
}

/// On sorted values with the first `idx` at most `c` and the rest above it,
/// the distance sum is `c * idx - prefix(idx) + (prefix(n) - prefix(idx)) - c * (n - idx)`.
proof fn lemma_dist_sum_split(c: int, s: Seq<i32>, idx: int)
    requires
        0 <= idx <= s.len(),
        forall|k: int| 0 <= k < idx ==> #[trigger] s[k] <= c,
        forall|k: int| idx <= k < s.len() ==> #[trigger] s[k] > c,
    ensures
        dist_sum(c, s) == c * idx - prefix(s, idx) + (prefix(s, s.len() as int) - prefix(s, idx)) - c * (s.len() - idx),
    decreases s.len(),
{
    if s.len() > 0 {
        let n = s.len() as int;
        let t = s.drop_last();
        assert forall|k: int| 0 <= k <= n - 1 implies prefix(t, k) == prefix(s, k) by {
            lemma_prefix_drop_last(s, k);
        }
        if idx == n {
            lemma_dist_sum_split(c, t, n - 1);
            assert(prefix(s, n) == prefix(s, n - 1) + s[n - 1]);
            assert(c * n == c * (n - 1) + c) by (nonlinear_arith);
        } else {
            lemma_dist_sum_split(c, t, idx);
            assert(prefix(s, n) == prefix(s, n - 1) + s[n - 1]);
            assert(c * (n - idx) == c * (n - 1 - idx) + c) by (nonlinear_arith);
        }
    }
}

proof fn lemma_prefix_drop_last(s: Seq<i32>, k: int)
    requires
        0 <= k < s.len(),
    ensures
        prefix(s.drop_last(), k) == prefix(s, k),
    decreases k,
{
    if k > 0 {
        lemma_prefix_drop_last(s, k - 1);
    }
}

proof fn lemma_prefix_bound(s: Seq<i32>, k: int)
    requires
        0 <= k <= s.len(),
    ensures
        -0x8000_0000 * k <= prefix(s, k) <= 0x8000_0000 * k,
    decreases k,
{
    if k > 0 {
        lemma_prefix_bound(s, k - 1);
    }
}

/// How many of the sorted values are at most `c`.
fn count_at_most(s: &Vec<i32>, c: i32) -> (idx: usize)
    requires
        sorted(s@),
    ensures
        idx <= s@.len(),
        forall|k: int| 0 <= k < idx ==> #[trigger] s@[k] <= c,
        forall|k: int| idx <= k < s@.len() ==> #[trigger] s@[k] > c,
{
    let mut lo: usize = 0;
    let mut hi: usize = s.len();
    while lo < hi
        invariant
            sorted(s@),
            lo <= hi <= s@.len(),
            forall|k: int| 0 <= k < lo ==> #[trigger] s@[k] <= c,
            forall|k: int| hi <= k < s@.len() ==> #[trigger] s@[k] > c,
        decreases hi - lo,
    {
        let m = lo + (hi - lo) / 2;
        if s[m] <= c {
            proof {
                assert forall|k: int| 0 <= k < m + 1 implies #[trigger] s@[k] <= c by {
                    assert(s@[k] <= s@[m as int]);
                }
            }
            lo = m + 1;
        } else {
            proof {
                assert forall|k: int| m <= k < s@.len() implies #[trigger] s@[k] > c by {
                    assert(s@[m as int] <= s@[k]);
                }
            }
            hi = m;
        }
    }
    lo
}

/// Prefix sums of `s`: entry `k` is the sum of the first `k` values.
fn prefix_sums(s: &Vec<i32>) -> (p: Vec<i64>)
    requires
        s@.len() <= 0x2000_0000,
    ensures
        p@.len() == s@.len() + 1,
        forall|k: int| 0 <= k <= s@.len() ==> #[trigger] p@[k] == prefix(s@, k),
{
    let mut p: Vec<i64> = Vec::new();
    p.push(0);
    let mut i: usize = 0;
    while i < s.len()
        invariant
            s@.len() <= 0x2000_0000,
            i <= s@.len(),
            p@.len() == i + 1,
            forall|k: int| 0 <= k <= i ==> #[trigger] p@[k] == prefix(s@, k),
        decreases s@.len() - i,
    {
        proof {
            lemma_prefix_bound(s@, i as int);
            lemma_prefix_bound(s@, i + 1);
        }
        let v = p[i] + s[i] as i64;
        p.push(v);
        i = i + 1;
    }
    p
}

/// The distance sum from `c` to the sorted values, from their prefix sums.
fn distance_total(s: &Vec<i32>, p: &Vec<i64>, c: i32) -> (d: i64)
    requires
        sorted(s@),
        s@.len() <= 0x2000_0000,
        p@.len() == s@.len() + 1,
        forall|k: int| 0 <= k <= s@.len() ==> #[trigger] p@[k] == prefix(s@, k),
    ensures
        d == dist_sum(c as int, s@),
        0 <= d <= 0x2000_0000_0000_0000,
{
    let n = s.len();
    let idx = count_at_most(s, c);
    proof {
        lemma_dist_sum_split(c as int, s@, idx as int);
        lemma_prefix_bound(s@, idx as int);
        lemma_prefix_bound(s@, n as int);
        assert(-0x8000_0000 * 0x2000_0000 <= (c as int) * (idx as int) <= 0x8000_0000 * 0x2000_0000) by (nonlinear_arith)
            requires
                -0x8000_0000 <= c < 0x8000_0000,
                0 <= idx <= 0x2000_0000,
        ;
        assert(-0x8000_0000 * 0x2000_0000 <= (c as int) * ((n - idx) as int) <= 0x8000_0000 * 0x2000_0000) by (nonlinear_arith)
            requires
                -0x8000_0000 <= c < 0x8000_0000,
                0 <= n - idx <= 0x2000_0000,
        ;
        assert(-0x8000_0000 * 0x2000_0000 <= prefix(s@, idx as int) <= 0x8000_0000 * 0x2000_0000) by (nonlinear_arith)
            requires
                -0x8000_0000 * idx <= prefix(s@, idx as int) <= 0x8000_0000 * idx,
                0 <= idx <= 0x2000_0000,
        ;
        assert(-0x8000_0000 * 0x2000_0000 <= prefix(s@, n as int) <= 0x8000_0000 * 0x2000_0000) by (nonlinear_arith)
            requires
                -0x8000_0000 * n <= prefix(s@, n as int) <= 0x8000_0000 * n,
                0 <= n <= 0x2000_0000,
        ;
        lemma_dist_sum_nonneg(c as int, s@);
        lemma_dist_sum_bound(c as int, s@);
        assert(s@.len() * 0x1_0000_0000 <= 0x2000_0000_0000_0000) by (nonlinear_arith)
            requires
                s@.len() <= 0x2000_0000,
        ;
    }
    let below = (c as i64) * (idx as i64) - p[idx];
    let above = (p[n] - p[idx]) - (c as i64) * ((n - idx) as i64);
    below + above
}

proof fn lemma_dist_sum_bound(c: int, s: Seq<i32>)
    requires
        -0x8000_0000 <= c < 0x8000_0000,
    ensures
        dist_sum(c, s) <= s.len() * 0x1_0000_0000,
    decreases s.len(),
{
    if s.len() > 0 {
        lemma_dist_sum_bound(c, s.drop_last());
        assert((s.len() - 1) * 0x1_0000_0000 + 0x1_0000_0000 == s.len() * 0x1_0000_0000) by (nonlinear_arith);
    }
}

proof fn lemma_dist_sum_nonneg(c: int, s: Seq<i32>)
    ensures
        dist_sum(c, s) >= 0,
    decreases s.len(),
{
    if s.len() > 0 {
        lemma_dist_sum_nonneg(c, s.drop_last());
    }
}

/// After each command, the sum over the markers of the Manhattan distance to
/// the moving point, which starts at the origin; `N` and `S` move it along y,
/// `E` and `W` along x, anything else leaves it in place.
pub fn solve(markers_x: &[i32], markers_y: &[i32], commands: &str) -> (results: Vec<i64>)
    requires
        markers_x@.len() == markers_y@.len(),
        markers_x@.len() <= 0x2000_0000,
        commands@.len() < 0x7fff_ffff,
    ensures
        results@.len() == commands@.len(),
        forall|t: int|
            0 <= t < results@.len() ==> #[trigger] results@[t] == dist_sum(coordinate(commands@, t + 1, 'E', 'W'), markers_x@)
                + dist_sum(coordinate(commands@, t + 1, 'N', 'S'), markers_y@),
{
    let mut sorted_x: Vec<i32> = Vec::new();
    let mut sorted_y: Vec<i32> = Vec::new();
    let mut i: usize = 0;
    while i < markers_x.len()
        invariant
            markers_x@.len() == markers_y@.len(),
            i <= markers_x@.len(),
            sorted_x@ == markers_x@.take(i as int),
            sorted_y@ == markers_y@.take(i as int),
        decreases markers_x@.len() - i,
    {
        sorted_x.push(markers_x[i]);
        sorted_y.push(markers_y[i]);
        i = i + 1;
        assert(sorted_x@ =~= markers_x@.take(i as int));
        assert(sorted_y@ =~= markers_y@.take(i as int));
    }
    assert(sorted_x@ =~= markers_x@);
    assert(sorted_y@ =~= markers_y@);
    sort_values(&mut sorted_x);
    sort_values(&mut sorted_y);
    let px = prefix_sums(&sorted_x);
    let py = prefix_sums(&sorted_y);
    let mut cx: i32 = 0;
    let mut cy: i32 = 0;
    let mut results: Vec<i64> = Vec::new();
    let mut chars = commands.chars();
    let ghost cmds = commands@;
    let mut t: usize = 0;
    loop
        invariant
            cmds == commands@,
            cmds.len() < 0x7fff_ffff,
            t <= cmds.len(),
            chars.remaining() == cmds.skip(t as int),
            chars.obeys_prophetic_iter_laws(),
            results@.len() == t,
            cx == coordinate(cmds, t as int, 'E', 'W'),
            cy == coordinate(cmds, t as int, 'N', 'S'),
            -t <= cx <= t,
            -t <= cy <= t,
            sorted(sorted_x@),
            sorted(sorted_y@),
            sorted_x@.len() == markers_x@.len(),
            sorted_y@.len() == markers_y@.len(),
            markers_x@.len() == markers_y@.len(),
            markers_x@.len() <= 0x2000_0000,
            sorted_x@.to_multiset() == markers_x@.to_multiset(),
            sorted_y@.to_multiset() == markers_y@.to_multiset(),
            px@.len() == sorted_x@.len() + 1,
            py@.len() == sorted_y@.len() + 1,
            forall|k: int| 0 <= k <= sorted_x@.len() ==> #[trigger] px@[k] == prefix(sorted_x@, k),
            forall|k: int| 0 <= k <= sorted_y@.len() ==> #[trigger] py@[k] == prefix(sorted_y@, k),
            forall|u: int|
                0 <= u < t ==> #[trigger] results@[u] == dist_sum(coordinate(cmds, u + 1, 'E', 'W'), markers_x@)
                    + dist_sum(coordinate(cmds, u + 1, 'N', 'S'), markers_y@),
        ensures
            results@.len() == cmds.len(),
            forall|u: int|
                0 <= u < results@.len() ==> #[trigger] results@[u] == dist_sum(coordinate(cmds, u + 1, 'E', 'W'), markers_x@)
                    + dist_sum(coordinate(cmds, u + 1, 'N', 'S'), markers_y@),
        decreases cmds.len() - t,
    {
        match chars.next() {
            Some(cmd) => {
                proof {
                    assert(t < cmds.len()) by {
                        if t >= cmds.len() {
                            assert(cmds.skip(t as int).len() == 0);
                        }
                    }
                    assert(cmd == cmds[t as int]);
                }
                if cmd == 'N' {
                    cy = cy + 1;
                } else if cmd == 'S' {
                    cy = cy - 1;
                } else if cmd == 'E' {
                    cx = cx + 1;
                } else if cmd == 'W' {
                    cx = cx - 1;
                }
                let sum_x = distance_total(&sorted_x, &px, cx);
                let sum_y = distance_total(&sorted_y, &py, cy);
                proof {
                    lemma_dist_sum_perm(cx as int, sorted_x@, markers_x@);
                    lemma_dist_sum_perm(cy as int, sorted_y@, markers_y@);
                }
                results.push(sum_x + sum_y);
                proof {
                    assert(cmds.skip(t as int).drop_first() =~= cmds.skip(t + 1));
                }
                t = t + 1;
            },
            None => {
                proof {
                    assert(cmds.skip(t as int).len() == 0);
                }
                break;
            },
        }
    }
    results
}

} // verus!
