//! Splitting a point set into the connected components of a proximity graph,
//! by breadth-first traversal from the lowest unvisited point.
use vstd::prelude::*;
use vstd::set_lib::{lemma_int_range, lemma_len_subset, set_int_range};

verus! {

/// `near` is an `n` by `n` symmetric relation.
pub open spec fn proximity(near: Seq<Vec<bool>>) -> bool {
    &&& forall|u: int| 0 <= u < near.len() ==> (#[trigger] near[u])@.len() == near.len()
    &&& forall|u: int, v: int|
        0 <= u < near.len() && 0 <= v < near.len() ==> near[u]@[v] == near[v]@[u]
}

/// Point `v` is the `k`-th member of component `c`.
pub open spec fn at(comps: Seq<Vec<usize>>, c: int, k: int, v: int) -> bool {
    0 <= c < comps.len() && 0 <= k < comps[c]@.len() && comps[c]@[k] == v
}

/// Point `v` belongs to component `c`.
pub open spec fn member(comps: Seq<Vec<usize>>, c: int, v: int) -> bool {
    exists|k: int| #[trigger] at(comps, c, k, v)
}

/// Point `v` belongs to some component.
pub open spec fn placed(comps: Seq<Vec<usize>>, v: int) -> bool {
    exists|c: int, k: int| #[trigger] at(comps, c, k, v)
}

/// Every point lies in exactly one component, exactly once, and nothing else does.
pub open spec fn partitions(comps: Seq<Vec<usize>>, n: int) -> bool {
    &&& forall|c: int, k: int|
        0 <= c < comps.len() && 0 <= k < comps[c]@.len() ==> #[trigger] comps[c]@[k] < n
    &&& forall|v: int| 0 <= v < n ==> #[trigger] placed(comps, v)
    &&& forall|c1: int, k1: int, c2: int, k2: int|
        0 <= c1 < comps.len() && 0 <= k1 < comps[c1]@.len() && 0 <= c2 < comps.len() && 0 <= k2
            < comps[c2]@.len() && #[trigger] comps[c1]@[k1] == #[trigger] comps[c2]@[k2] ==> c1 == c2
            && k1 == k2
}

/// Each member but the first is near an earlier member of its component.
pub open spec fn grown(near: Seq<Vec<bool>>, comp: Seq<usize>) -> bool {
    forall|k: int| 0 < k < comp.len() ==> #[trigger] linked_back(near, comp, k)
}

/// The `k`-th member is near an earlier member.
pub open spec fn linked_back(near: Seq<Vec<bool>>, comp: Seq<usize>, k: int) -> bool {
    exists|j: int| 0 <= j < k && #[trigger] near[comp[j] as int]@[comp[k] as int]
}

/// No point outside a component is near a point inside it.
pub open spec fn closed(near: Seq<Vec<bool>>, comps: Seq<Vec<usize>>) -> bool {
    forall|c: int, k: int, v: int|
        0 <= c < comps.len() && 0 <= k < comps[c]@.len() && 0 <= v < near.len()
            && #[trigger] near[comps[c]@[k] as int]@[v] ==> member(comps, c, v)
}

/// Components are nonempty, grown from their first member, which is their
/// lowest point, and come in increasing order of that point.
pub open spec fn ordered(near: Seq<Vec<bool>>, comps: Seq<Vec<usize>>) -> bool {
    &&& forall|c: int| 0 <= c < comps.len() ==> (#[trigger] comps[c])@.len() > 0
    &&& forall|c: int| 0 <= c < comps.len() ==> grown(near, (#[trigger] comps[c])@)
    &&& forall|c: int, k: int|
        0 <= c < comps.len() && 0 <= k < comps[c]@.len() ==> comps[c]@[0] <= #[trigger] comps[c]@[k]
    &&& forall|c: int, d: int|
        0 <= c < d < comps.len() ==> #[trigger] comps[c]@[0] < #[trigger] comps[d]@[0]
}

/// A sequence of distinct indices below `n` has at most `n` entries.
proof fn lemma_distinct_bounded(q: Seq<usize>, n: int)
    requires
        0 <= n,
        forall|k: int| 0 <= k < q.len() ==> #[trigger] q[k] < n,
        forall|k1: int, k2: int| 0 <= k1 < q.len() && 0 <= k2 < q.len() && #[trigger] q[k1] == #[trigger] q[k2] ==> k1 == k2,
    ensures
        q.len() <= n,
{
    let s = Seq::new(q.len(), |k: int| q[k] as int);
    assert(s.no_duplicates());
    s.unique_seq_to_set();
    lemma_int_range(0, n);
    assert(s.to_set().subset_of(set_int_range(0, n)));
    lemma_len_subset(s.to_set(), set_int_range(0, n));
}

/// `v` occurs in `q`.
pub open spec fn in_seq(q: Seq<usize>, v: int) -> bool {
    exists|k: int| 0 <= k < q.len() && #[trigger] q[k] == v
}

/// The entries of `q` are distinct indices below `n`.
pub open spec fn distinct_below(q: Seq<usize>, n: int) -> bool {
    &&& forall|k: int| 0 <= k < q.len() ==> #[trigger] q[k] < n
    &&& forall|k1: int, k2: int|
        0 <= k1 < q.len() && 0 <= k2 < q.len() && #[trigger] q[k1] == #[trigger] q[k2] ==> k1 == k2
}

/// No edge of `near` leaves the marked set.
pub open spec fn shut(near: Seq<Vec<bool>>, marked: Seq<bool>) -> bool {
    forall|a: int, b: int|
        0 <= a < near.len() && 0 <= b < near.len() && marked[a] && #[trigger] near[a]@[b] ==> marked[b]
}

/// Marks and appends every unmarked point near `u`.
fn scan(
    near: &Vec<Vec<bool>>,
    u: usize,
    visited: &mut Vec<bool>,
    q: &mut Vec<usize>,
    Ghost(base): Ghost<Seq<bool>>,
)
    requires
        proximity(near@),
        u < near@.len(),
        in_seq(old(q)@, u as int),
        old(visited)@.len() == near@.len(),
        base.len() == near@.len(),
        distinct_below(old(q)@, near@.len() as int),
        forall|w: int| 0 <= w < near@.len() ==> (old(visited)@[w] <==> base[w] || in_seq(old(q)@, w)),
        forall|k: int| 0 <= k < old(q)@.len() ==> !base[#[trigger] old(q)@[k] as int],
        grown(near@, old(q)@),
    ensures
        final(visited)@.len() == near@.len(),
        final(q)@.len() >= old(q)@.len(),
        final(q)@.take(old(q)@.len() as int) == old(q)@,
        distinct_below(final(q)@, near@.len() as int),
        forall|w: int| 0 <= w < near@.len() ==> (final(visited)@[w] <==> base[w] || in_seq(final(q)@, w)),
        forall|k: int| 0 <= k < final(q)@.len() ==> !base[#[trigger] final(q)@[k] as int],
        forall|w: int| 0 <= w < near@.len() && old(visited)@[w] ==> final(visited)@[w],
        forall|w: int| 0 <= w < near@.len() && #[trigger] near@[u as int]@[w] ==> final(visited)@[w],
        forall|k: int| old(q)@.len() <= k < final(q)@.len() ==> !old(visited)@[#[trigger] final(q)@[k] as int],
        grown(near@, final(q)@),
{
    let n = near.len();
    let ghost q0 = q@;
    let mut v: usize = 0;
    while v < n
        invariant
            n == near@.len(),
            proximity(near@),
            u < n,
            in_seq(q0, u as int),
            v <= n,
            visited@.len() == n,
            base.len() == n,
            q@.len() >= q0.len(),
            q@.take(q0.len() as int) == q0,
            distinct_below(q@, n as int),
            forall|w: int| 0 <= w < n ==> (visited@[w] <==> base[w] || in_seq(q@, w)),
            forall|k: int| 0 <= k < q@.len() ==> !base[#[trigger] q@[k] as int],
            forall|w: int| 0 <= w < n && old(visited)@[w] ==> visited@[w],
            forall|w: int| 0 <= w < v && #[trigger] near@[u as int]@[w] ==> visited@[w],
            forall|k: int| q0.len() <= k < q@.len() ==> !old(visited)@[#[trigger] q@[k] as int],
            forall|w: int| 0 <= w < n ==> (old(visited)@[w] <==> base[w] || in_seq(q0, w)),
            grown(near@, q@),
        decreases n - v,
    {
        if !visited[v] && near[u][v] {
            let ghost q1 = q@;
            let ghost vis1 = visited@;
            assert(!old(visited)@[v as int]);
            visited.set(v, true);
            q.push(v);
            proof {
                lemma_scan_push(near@, q0, q1, q@, vis1, visited@, base, u, v);
            }
        }
        v = v + 1;
    }
}

/// Appending the unmarked point `v`, near `u`, keeps the traversal's queue
/// consistent with the marks.
#[verifier::rlimit(60)]
proof fn lemma_scan_push(
    near: Seq<Vec<bool>>,
    q0: Seq<usize>,
    q1: Seq<usize>,
    q2: Seq<usize>,
    vis1: Seq<bool>,
    vis2: Seq<bool>,
    base: Seq<bool>,
    u: usize,
    v: usize,
)
    requires
        proximity(near),
        u < near.len(),
        v < near.len(),
        near[u as int]@[v as int],
        !vis1[v as int],
        in_seq(q0, u as int),
        q1.len() >= q0.len(),
        q1.take(q0.len() as int) == q0,
        q2 == q1.push(v),
        vis1.len() == near.len(),
        vis2 == vis1.update(v as int, true),
        base.len() == near.len(),
        distinct_below(q1, near.len() as int),
        forall|w: int| 0 <= w < near.len() ==> (vis1[w] <==> base[w] || in_seq(q1, w)),
        forall|k: int| 0 <= k < q1.len() ==> !base[#[trigger] q1[k] as int],
        grown(near, q1),
    ensures
        q2.take(q0.len() as int) == q0,
        distinct_below(q2, near.len() as int),
        q2.len() <= near.len(),
        forall|w: int| 0 <= w < near.len() ==> (vis2[w] <==> base[w] || in_seq(q2, w)),
        forall|k: int| 0 <= k < q2.len() ==> !base[#[trigger] q2[k] as int],
        grown(near, q2),
{
    let n = near.len();
    assert(q2.take(q0.len() as int) =~= q0) by {
        assert forall|j: int| 0 <= j < q0.len() implies q2[j] == q0[j] by {
            assert(q1.take(q0.len() as int)[j] == q0[j]);
        }
    }
    assert forall|k: int| 0 <= k < q1.len() implies q2[k] == q1[k] by {}
    assert(!in_seq(q1, v as int));
    assert forall|w: int| 0 <= w < n implies (vis2[w] <==> base[w] || in_seq(q2, w)) by {
        if in_seq(q1, w) {
            let k = choose|k: int| 0 <= k < q1.len() && #[trigger] q1[k] == w;
            assert(q2[k] == w);
        }
        if in_seq(q2, w) && w != v as int {
            let k = choose|k: int| 0 <= k < q2.len() && #[trigger] q2[k] == w;
            assert(k != q1.len());
            assert(q1[k] == w);
            assert(in_seq(q1, w));
        }
        if w == v as int {
            assert(q2[q1.len() as int] == w);
        }
    }
    assert forall|k: int| 0 <= k < q2.len() implies !base[#[trigger] q2[k] as int] by {
        if k == q1.len() {
            assert(!vis1[v as int]);
        }
    }
    assert forall|k1: int, k2: int|
        0 <= k1 < q2.len() && 0 <= k2 < q2.len() && #[trigger] q2[k1] == #[trigger] q2[k2] implies k1 == k2 by {
        if k1 < q1.len() && k2 == q1.len() {
            assert(in_seq(q1, v as int));
        }
        if k2 < q1.len() && k1 == q1.len() {
            assert(in_seq(q1, v as int));
        }
    }
    assert forall|k: int| 0 < k < q2.len() implies #[trigger] linked_back(near, q2, k) by {
        if k < q1.len() {
            assert(linked_back(near, q1, k));
            let j = choose|j: int| 0 <= j < k && #[trigger] near[q1[j] as int]@[q1[k] as int];
            assert(q2[j] == q1[j]);
            assert(q2[k] == q1[k]);
        } else {
            let j = choose|j: int| 0 <= j < q0.len() && #[trigger] q0[j] == u;
            assert(q1.take(q0.len() as int)[j] == q0[j]);
            assert(q2[j] == q1[j]);
            assert(q2[k] == v);
            assert(near[q2[j] as int]@[q2[k] as int]);
        }
    }
    lemma_distinct_bounded(q2, n as int);
}

/// Breadth-first traversal from the unmarked point `i`: marks and returns, in
/// the order reached, every point that a chain of `near` steps leads to.
fn reach(near: &Vec<Vec<bool>>, visited: &mut Vec<bool>, i: usize) -> (q: Vec<usize>)
    requires
        proximity(near@),
        i < near@.len(),
        old(visited)@.len() == near@.len(),
        !old(visited)@[i as int],
        shut(near@, old(visited)@),
    ensures
        final(visited)@.len() == near@.len(),
        q@.len() > 0,
        q@[0] == i,
        distinct_below(q@, near@.len() as int),
        forall|w: int| 0 <= w < near@.len() ==> (#[trigger] final(visited)@[w] <==> old(visited)@[w] || in_seq(q@, w)),
        forall|k: int| 0 <= k < q@.len() ==> !old(visited)@[#[trigger] q@[k] as int],
        forall|k: int, w: int|
            0 <= k < q@.len() && 0 <= w < near@.len() && #[trigger] near@[q@[k] as int]@[w] ==> in_seq(q@, w),
        grown(near@, q@),
{
    let n = near.len();
    let ghost base = visited@;
    let mut q: Vec<usize> = Vec::new();
    q.push(i);
    visited.set(i, true);
    proof {
        assert forall|w: int| 0 <= w < n implies (visited@[w] <==> base[w] || in_seq(q@, w)) by {
            if w == i {
                assert(q@[0] == i);
            }
        }
    }
    let mut head: usize = 0;
    while head < q.len()
        invariant
            n == near@.len(),
            proximity(near@),
            i < n,
            visited@.len() == n,
            base.len() == n,
            shut(near@, base),
            0 < q@.len() <= n,
            q@[0] == i,
            head <= q@.len(),
            distinct_below(q@, n as int),
            forall|w: int| 0 <= w < n ==> (visited@[w] <==> base[w] || in_seq(q@, w)),
            forall|k: int| 0 <= k < q@.len() ==> !base[#[trigger] q@[k] as int],
            forall|h: int, w: int| 0 <= h < head && 0 <= w < n && #[trigger] near@[q@[h] as int]@[w] ==> visited@[w],
            grown(near@, q@),
        decreases n - head,
    {
        let u = q[head];
        let ghost q1 = q@;
        let ghost vis1 = visited@;
        proof {
            assert(in_seq(q@, u as int));
        }
        scan(near, u, visited, &mut q, Ghost(base));
        proof {
            lemma_distinct_bounded(q@, n as int);
            assert forall|h: int, w: int| 0 <= h <= head && 0 <= w < n && #[trigger] near@[q@[h] as int]@[w] implies visited@[w] by {
                assert(q@[h] == q1.take(q1.len() as int)[h]);
                if h < head {
                    assert(vis1[w]);
                }
            }
        }
        head = head + 1;
    }
    proof {
        assert forall|k: int, w: int|
            0 <= k < q@.len() && 0 <= w < n && #[trigger] near@[q@[k] as int]@[w] implies in_seq(q@, w) by {
            assert(visited@[w]);
            if base[w] {
                assert(near@[w]@[q@[k] as int]);
            }
        }
    }
    q
}

/// The connected components of `near`, each listed in the order a breadth-first
/// traversal from its lowest point reaches them.
pub fn components(near: &Vec<Vec<bool>>) -> (comps: Vec<Vec<usize>>)
    requires
        proximity(near@),
    ensures
        partitions(comps@, near@.len() as int),
        closed(near@, comps@),
        ordered(near@, comps@),
{
    let n = near.len();
    let mut visited: Vec<bool> = Vec::new();
    let mut i: usize = 0;
    while i < n
        invariant
            i <= n,
            visited@.len() == i,
            forall|j: int| 0 <= j < i ==> !visited@[j],
        decreases n - i,
    {
        visited.push(false);
        i = i + 1;
    }
    let mut comps: Vec<Vec<usize>> = Vec::new();
    let mut i: usize = 0;
    while i < n
        invariant
            n == near@.len(),
            proximity(near@),
            i <= n,
            visited@.len() == n,
            forall|v: int| 0 <= v < n ==> (visited@[v] <==> placed(comps@, v)),
            forall|v: int| 0 <= v < i ==> visited@[v],
            forall|c: int, k: int|
                0 <= c < comps@.len() && 0 <= k < comps@[c]@.len() ==> #[trigger] comps@[c]@[k] < n,
            forall|c1: int, k1: int, c2: int, k2: int|
                0 <= c1 < comps@.len() && 0 <= k1 < comps@[c1]@.len() && 0 <= c2 < comps@.len() && 0 <= k2
                    < comps@[c2]@.len() && #[trigger] comps@[c1]@[k1] == #[trigger] comps@[c2]@[k2] ==> c1 == c2
                    && k1 == k2,
            closed(near@, comps@),
            ordered(near@, comps@),
            forall|c: int| 0 <= c < comps@.len() ==> #[trigger] comps@[c]@[0] < i,
        decreases n - i,
    {
        if !visited[i] {
            let ghost before = comps@;
            let ghost vis0 = visited@;
            proof {
                assert forall|a: int, b: int|
                    0 <= a < n && 0 <= b < n && vis0[a] && #[trigger] near@[a]@[b] implies vis0[b] by {
                    assert(placed(before, a));
                    let (c, k) = choose|c: int, k: int| #[trigger] at(before, c, k, a);
                    assert(member(before, c, b));
                    let k2 = choose|k2: int| #[trigger] at(before, c, k2, b);
                    assert(placed(before, b));
                }
            }
            let q = reach(near, &mut visited, i);
            proof {
                assert(vis0.len() == n);
                assert(forall|w: int| 0 <= w < near@.len() ==> (visited@[w] <==> vis0[w] || in_seq(q@, w)));
                lemma_push_component(near@, before, q, vis0, visited@, i as int);
            }
            comps.push(q);
        }
        i = i + 1;
    }
    proof {
        assert forall|v: int| 0 <= v < n implies #[trigger] placed(comps@, v) by {
            assert(visited@[v]);
        }
    }
    comps
}

/// Appending a component found by `reach` from the lowest unmarked point keeps
/// the list of components a partition of the marked points, closed and ordered.
proof fn lemma_push_component(
    near: Seq<Vec<bool>>,
    before: Seq<Vec<usize>>,
    qv: Vec<usize>,
    vis0: Seq<bool>,
    vis1: Seq<bool>,
    i: int,
)
    requires
        proximity(near),
        0 <= i < near.len(),
        vis0.len() == near.len(),
        vis1.len() == near.len(),
        forall|v: int| 0 <= v < near.len() ==> (vis0[v] <==> placed(before, v)),
        forall|v: int| 0 <= v < i ==> vis0[v],
        !vis0[i],
        forall|c: int, k: int|
            0 <= c < before.len() && 0 <= k < before[c]@.len() ==> #[trigger] before[c]@[k] < near.len(),
        forall|c1: int, k1: int, c2: int, k2: int|
            0 <= c1 < before.len() && 0 <= k1 < before[c1]@.len() && 0 <= c2 < before.len() && 0 <= k2
                < before[c2]@.len() && #[trigger] before[c1]@[k1] == #[trigger] before[c2]@[k2] ==> c1 == c2
                && k1 == k2,
        closed(near, before),
        ordered(near, before),
        forall|c: int| 0 <= c < before.len() ==> #[trigger] before[c]@[0] < i,
        qv@.len() > 0,
        qv@[0] == i,
        distinct_below(qv@, near.len() as int),
        forall|w: int| 0 <= w < near.len() ==> (vis1[w] <==> vis0[w] || in_seq(qv@, w)),
        forall|k: int| 0 <= k < qv@.len() ==> !vis0[#[trigger] qv@[k] as int],
        forall|k: int, w: int|
            0 <= k < qv@.len() && 0 <= w < near.len() && #[trigger] near[qv@[k] as int]@[w] ==> in_seq(qv@, w),
        grown(near, qv@),
    ensures
        ({
            let comps = before.push(qv);
            let n = near.len();
            &&& forall|v: int| 0 <= v < n ==> (vis1[v] <==> placed(comps, v))
            &&& forall|v: int| 0 <= v <= i ==> vis1[v]
            &&& forall|c: int, k: int|
                0 <= c < comps.len() && 0 <= k < comps[c]@.len() ==> #[trigger] comps[c]@[k] < n
            &&& forall|c1: int, k1: int, c2: int, k2: int|
                0 <= c1 < comps.len() && 0 <= k1 < comps[c1]@.len() && 0 <= c2 < comps.len() && 0 <= k2
                    < comps[c2]@.len() && #[trigger] comps[c1]@[k1] == #[trigger] comps[c2]@[k2] ==> c1 == c2
                    && k1 == k2
            &&& closed(near, comps)
            &&& ordered(near, comps)
            &&& forall|c: int| 0 <= c < comps.len() ==> #[trigger] comps[c]@[0] <= i
        }),
{
    let comps = before.push(qv);
    let n = near.len();
    let last = before.len() as int;
    let q = qv@;
    assert(comps[last]@ == q);
    assert forall|c: int| 0 <= c < before.len() implies #[trigger] comps[c] == before[c] by {}
    // Every point of an earlier component was marked before; every point of q was not.
    assert forall|c: int, k: int| 0 <= c < before.len() && 0 <= k < before[c]@.len() implies vis0[#[trigger] before[c]@[k] as int] by {
        assert(at(before, c, k, before[c]@[k] as int));
    }
    assert forall|v: int| 0 <= v < n implies (vis1[v] <==> placed(comps, v)) by {
        if vis0[v] {
            let (c, k) = choose|c: int, k: int| #[trigger] at(before, c, k, v);
            assert(at(comps, c, k, v));
        } else if in_seq(q, v) {
            let k = choose|k: int| 0 <= k < q.len() && #[trigger] q[k] == v;
            assert(at(comps, last, k, v));
        }
        if placed(comps, v) {
            let (c, k) = choose|c: int, k: int| #[trigger] at(comps, c, k, v);
            if c < last {
                assert(at(before, c, k, v));
            } else {
                assert(in_seq(q, v));
            }
        }
    }
    assert forall|v: int| 0 <= v <= i implies vis1[v] by {
        if v == i {
            assert(in_seq(q, i));
        }
    }
    assert forall|c1: int, k1: int, c2: int, k2: int|
        0 <= c1 < comps.len() && 0 <= k1 < comps[c1]@.len() && 0 <= c2 < comps.len() && 0 <= k2
            < comps[c2]@.len() && #[trigger] comps[c1]@[k1] == #[trigger] comps[c2]@[k2] implies c1 == c2
            && k1 == k2 by {
        if c1 < last && c2 == last {
            assert(vis0[before[c1]@[k1] as int]);
            assert(!vis0[q[k2] as int]);
        } else if c2 < last && c1 == last {
            assert(vis0[before[c2]@[k2] as int]);
            assert(!vis0[q[k1] as int]);
        }
    }
    assert forall|c: int, k: int, v: int|
        0 <= c < comps.len() && 0 <= k < comps[c]@.len() && 0 <= v < near.len()
            && #[trigger] near[comps[c]@[k] as int]@[v] implies member(comps, c, v) by {
        if c < last {
            assert(member(before, c, v));
            let k2 = choose|k2: int| #[trigger] at(before, c, k2, v);
            assert(at(comps, c, k2, v));
        } else {
            assert(in_seq(q, v));
            let k2 = choose|k2: int| 0 <= k2 < q.len() && #[trigger] q[k2] == v;
            assert(at(comps, c, k2, v));
        }
    }
    assert forall|k: int| 0 <= k < q.len() implies i <= #[trigger] q[k] by {
        if q[k] < i {
            assert(vis0[q[k] as int]);
        }
    }
    assert(ordered(near, comps));
}

/// `p` is a nonempty walk of `near` steps through points below `near.len()`.
pub open spec fn walk(near: Seq<Vec<bool>>, p: Seq<usize>) -> bool {
    &&& p.len() > 0
    &&& forall|k: int| 0 <= k < p.len() ==> #[trigger] p[k] < near.len()
    &&& forall|k: int| 0 <= k < p.len() - 1 ==> #[trigger] near[p[k] as int]@[p[k + 1] as int]
}

/// A walk from the first member of `comp` to its `k`-th, through members.
proof fn root_walk(near: Seq<Vec<bool>>, comp: Seq<usize>, k: int) -> (p: Seq<usize>)
    requires
        grown(near, comp),
        0 <= k < comp.len(),
        forall|j: int| 0 <= j < comp.len() ==> #[trigger] comp[j] < near.len(),
    ensures
        walk(near, p),
        p[0] == comp[0],
        p.last() == comp[k],
        forall|e: int| 0 <= e < p.len() ==> in_seq(comp, #[trigger] p[e] as int),
    decreases k,
{
    if k == 0 {
        let p = seq![comp[0]];
        assert(in_seq(comp, comp[0] as int));
        p
    } else {
        assert(linked_back(near, comp, k));
        let j = choose|j: int| 0 <= j < k && #[trigger] near[comp[j] as int]@[comp[k] as int];
        let prefix = root_walk(near, comp, j);
        let p = prefix.push(comp[k]);
        assert forall|e: int| 0 <= e < p.len() implies in_seq(comp, #[trigger] p[e] as int) by {
            if e < prefix.len() {
                assert(p[e] == prefix[e]);
            } else {
                assert(p[e] == comp[k]);
            }
        }
        assert forall|e: int| 0 <= e < p.len() - 1 implies #[trigger] near[p[e] as int]@[p[e + 1] as int] by {
            if e < prefix.len() - 1 {
                assert(p[e] == prefix[e] && p[e + 1] == prefix[e + 1]);
            }
        }
        p
    }
}

/// The same walk, backwards.
proof fn reverse_walk(near: Seq<Vec<bool>>, p: Seq<usize>) -> (r: Seq<usize>)
    requires
        proximity(near),
        walk(near, p),
    ensures
        walk(near, r),
        r[0] == p.last(),
        r.last() == p[0],
        r.len() == p.len(),
        forall|e: int| 0 <= e < r.len() ==> #[trigger] r[e] == p[p.len() - 1 - e],
{
    let r = Seq::new(p.len(), |e: int| p[p.len() - 1 - e]);
    assert forall|e: int| 0 <= e < r.len() - 1 implies #[trigger] near[r[e] as int]@[r[e + 1] as int] by {
        let f = p.len() - 2 - e;
        assert(near[p[f] as int]@[p[f + 1] as int]);
    }
    r
}

/// Any two members of one component are joined by a walk of `near` steps that
/// stays inside the component; together with `partitions` and `closed`, the
/// components are exactly the connected pieces of the proximity graph.
pub proof fn lemma_component_linked(near: Seq<Vec<bool>>, comps: Seq<Vec<usize>>, c: int, k1: int, k2: int)
    requires
        proximity(near),
        partitions(comps, near.len() as int),
        ordered(near, comps),
        0 <= c < comps.len(),
        0 <= k1 < comps[c]@.len(),
        0 <= k2 < comps[c]@.len(),
    ensures
        exists|p: Seq<usize>|
            {
                &&& walk(near, p)
                &&& p[0] == comps[c]@[k1]
                &&& p.last() == comps[c]@[k2]
                &&& forall|e: int| 0 <= e < p.len() ==> member(comps, c, #[trigger] p[e] as int)
            },
{
    let comp = comps[c]@;
    assert(grown(near, comp));
    assert forall|j: int| 0 <= j < comp.len() implies #[trigger] comp[j] < near.len() by {
        assert(comps[c]@[j] < near.len());
    }
    let a = root_walk(near, comp, k1);
    let b = root_walk(near, comp, k2);
    let ra = reverse_walk(near, a);
    let p = ra + b.drop_first();
    assert forall|e: int| 0 <= e < p.len() implies member(comps, c, #[trigger] p[e] as int) by {
        let x = p[e];
        if e < ra.len() {
            assert(x == a[a.len() - 1 - e]);
            assert(in_seq(comp, a[a.len() - 1 - e] as int));
        } else {
            assert(x == b[e - ra.len() + 1]);
            assert(in_seq(comp, b[e - ra.len() + 1] as int));
        }
        let k = choose|k: int| 0 <= k < comp.len() && #[trigger] comp[k] == x as int;
        assert(at(comps, c, k, x as int));
    }
    assert forall|e: int| 0 <= e < p.len() implies #[trigger] p[e] < near.len() by {
        if e < ra.len() {
            assert(p[e] == ra[e]);
        } else {
            assert(p[e] == b[e - ra.len() + 1]);
        }
    }
    assert forall|e: int| 0 <= e < p.len() - 1 implies #[trigger] near[p[e] as int]@[p[e + 1] as int] by {
        if e < ra.len() - 1 {
            assert(p[e] == ra[e] && p[e + 1] == ra[e + 1]);
        } else if e == ra.len() - 1 {
            assert(p[e] == ra[e]);
            assert(ra[e] == a[0]);
            assert(a[0] == b[0]);
            assert(p[e + 1] == b[1]);
            assert(near[b[0] as int]@[b[1] as int]);
        } else {
            let f = e - ra.len() + 1;
            assert(p[e] == b[f] && p[e + 1] == b[f + 1]);
        }
    }
    assert(walk(near, p));
    if b.len() == 1 {
        assert(p =~= ra);
    } else {
        assert(p.last() == b.last());
    }
}

} // verus!
