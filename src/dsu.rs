//! A disjoint-set forest with path compression and union by rank, as used by
//! Kruskal's algorithm over the cheapest axis-neighbour edges.
use vstd::prelude::*;

verus! {

/// `r` ranks the forest `parent`: every parent index is in range, and every
/// non-root is ranked strictly below its parent.
pub open spec fn ranked(parent: Seq<usize>, r: Seq<nat>) -> bool {
    &&& r.len() == parent.len()
    &&& forall|x: int| 0 <= x < parent.len() ==> #[trigger] parent[x] < parent.len()
    &&& forall|x: int| 0 <= x < parent.len() && parent[x] != x ==> r[x] < r[#[trigger] parent[x] as int]
}

/// `parent` is a forest: following parents always reaches a root.
pub open spec fn forest(parent: Seq<usize>) -> bool {
    exists|r: Seq<nat>| ranked(parent, r)
}

/// Some ranking of the forest.
pub open spec fn ranking(parent: Seq<usize>) -> Seq<nat> {
    choose|r: Seq<nat>| ranked(parent, r)
}

/// The largest entry, 0 for none.
pub open spec fn seq_max(r: Seq<nat>) -> nat
    decreases r.len(),
{
    if r.len() == 0 {
        0
    } else {
        let m = seq_max(r.drop_last());
        if r.last() > m {
            r.last()
        } else {
            m
        }
    }
}

proof fn lemma_seq_max(r: Seq<nat>, i: int)
    requires
        0 <= i < r.len(),
    ensures
        r[i] <= seq_max(r),
    decreases r.len(),
{
    if i < r.len() - 1 {
        lemma_seq_max(r.drop_last(), i);
    }
}

/// How far `x` is, in rank, below the top of the forest.
pub open spec fn height_left(parent: Seq<usize>, x: int) -> nat {
    let r = ranking(parent);
    (seq_max(r) - r[x]) as nat
}

#[via_fn]
proof fn root_decreases(parent: Seq<usize>, x: int) {
    if forest(parent) && 0 <= x < parent.len() && parent[x] != x {
        let r = ranking(parent);
        lemma_seq_max(r, x);
        lemma_seq_max(r, parent[x] as int);
    }
}

/// The root of the tree that holds `x`.
pub open spec fn root(parent: Seq<usize>, x: int) -> int
    decreases height_left(parent, x),
    when forest(parent) && 0 <= x < parent.len()
    via root_decreases
{
    if parent[x] == x {
        x
    } else {
        root(parent, parent[x] as int)
    }
}

/// The root is a root, and ranks at least as high as anything below it.
proof fn lemma_root(parent: Seq<usize>, r: Seq<nat>, x: int)
    requires
        ranked(parent, r),
        0 <= x < parent.len(),
    ensures
        0 <= root(parent, x) < parent.len(),
        parent[root(parent, x)] == root(parent, x),
        root(parent, x) != x ==> r[x] < r[root(parent, x)],
        root(parent, parent[x] as int) == root(parent, x),
    decreases seq_max(r) - r[x],
{
    lemma_seq_max(r, x);
    if parent[x] != x {
        lemma_seq_max(r, parent[x] as int);
        lemma_root(parent, r, parent[x] as int);
    }
}

/// Pointing `x` straight at its root changes no node's root.
proof fn lemma_compress(parent: Seq<usize>, x: int, z: int)
    requires
        forest(parent),
        0 <= x < parent.len(),
        0 <= z < parent.len(),
    ensures
        forest(parent.update(x, root(parent, x) as usize)),
        root(parent.update(x, root(parent, x) as usize), z) == root(parent, z),
    decreases height_left(parent, z),
{
    let r = ranking(parent);
    let after = parent.update(x, root(parent, x) as usize);
    lemma_root(parent, r, x);
    assert(ranked(after, r));
    lemma_root(parent, r, z);
    lemma_seq_max(r, z);
    if parent[z] != z {
        lemma_seq_max(r, parent[z] as int);
        lemma_compress(parent, x, parent[z] as int);
        if z == x {
            lemma_root(after, r, root(parent, x));
        }
    }
}

/// Hanging the root `y` under the root `x` sends everything of `y`'s tree to `x`.
pub(crate) proof fn lemma_link(parent: Seq<usize>, x: int, y: int, z: int)
    requires
        forest(parent),
        0 <= x < parent.len(),
        0 <= y < parent.len(),
        x != y,
        parent[x] == x,
        parent[y] == y,
        0 <= z < parent.len(),
    ensures
        forest(parent.update(y, x as usize)),
        root(parent.update(y, x as usize), z) == if root(parent, z) == y { x } else { root(parent, z) },
    decreases height_left(parent, z),
{
    let r = ranking(parent);
    let after = parent.update(y, x as usize);
    let r2 = r.update(x, seq_max(r) + 1);
    assert forall|w: int| 0 <= w < after.len() && after[w] != w implies r2[w] < r2[#[trigger] after[w] as int] by {
        lemma_seq_max(r, w);
    }
    assert(ranked(after, r2));
    lemma_root(parent, r, z);
    lemma_seq_max(r, z);
    if parent[z] != z {
        lemma_seq_max(r, parent[z] as int);
        lemma_link(parent, x, y, parent[z] as int);
        assert(after[z] == parent[z]);
        assert(root(after, z) == root(after, after[z] as int));
    } else if z == y {
        assert(after[x] == x);
        assert(root(after, x) == x);
        assert(root(after, y) == root(after, after[y] as int));
    } else {
        assert(root(after, z) == z);
    }
}

/// The root of `x`, pointing every node on the way straight at it.
pub fn find(parent: &mut [usize], x: usize) -> (r: usize)
    requires
        forest(old(parent)@),
        x < old(parent)@.len(),
    ensures
        final(parent)@.len() == old(parent)@.len(),
        forest(final(parent)@),
        r == root(old(parent)@, x as int),
        forall|z: int| 0 <= z < old(parent)@.len() ==> #[trigger] root(final(parent)@, z) == root(old(parent)@, z),
    decreases height_left(old(parent)@, x as int),
{
    proof {
        lemma_root(parent@, ranking(parent@), x as int);
    }
    if parent[x] != x {
        proof {
            let rk = ranking(parent@);
            lemma_seq_max(rk, x as int);
            lemma_seq_max(rk, parent@[x as int] as int);
        }
        let ghost start = parent@;
        let px = parent[x];
        let r = find(parent, px);
        let ghost mid = parent@;
        proof {
            assert(r == root(mid, x as int));
        }
        parent[x] = r;
        proof {
            assert(parent@ == mid.update(x as int, root(mid, x as int) as usize));
            assert forall|z: int| 0 <= z < start.len() implies #[trigger] root(parent@, z) == root(start, z) by {
                lemma_compress(mid, x as int, z);
            }
            lemma_compress(mid, x as int, x as int);
        }
    }
    parent[x]
}

/// Joins the trees of the distinct roots `x` and `y`: the one of lower rank
/// goes under the other, and on equal ranks `y` goes under `x`, whose rank grows.
pub fn union(parent: &mut [usize], rank: &mut [usize], x: usize, y: usize)
    requires
        forest(old(parent)@),
        old(rank)@.len() == old(parent)@.len(),
        x < old(parent)@.len(),
        y < old(parent)@.len(),
        x != y,
        old(parent)@[x as int] == x,
        old(parent)@[y as int] == y,
        old(rank)@[x as int] < usize::MAX,
    ensures
        forest(final(parent)@),
        final(rank)@.len() == old(rank)@.len(),
        old(rank)@[x as int] < old(rank)@[y as int] ==> final(parent)@ == old(parent)@.update(x as int, y) && final(rank)@ == old(rank)@,
        old(rank)@[x as int] > old(rank)@[y as int] ==> final(parent)@ == old(parent)@.update(y as int, x) && final(rank)@ == old(rank)@,
        old(rank)@[x as int] == old(rank)@[y as int] ==> final(parent)@ == old(parent)@.update(y as int, x)
            && final(rank)@ == old(rank)@.update(x as int, (old(rank)@[x as int] + 1) as usize),
        forall|z: int|
            0 <= z < old(parent)@.len() ==> #[trigger] root(final(parent)@, z) == if root(old(parent)@, z) == x || root(old(parent)@, z) == y {
                root(final(parent)@, x as int)
            } else {
                root(old(parent)@, z)
            },
{
    let ghost start = parent@;
    if rank[x] < rank[y] {
        parent[x] = y;
        proof {
            assert forall|z: int| 0 <= z < start.len() implies #[trigger] root(parent@, z) == if root(start, z) == x || root(start, z) == y {
                root(parent@, x as int)
            } else {
                root(start, z)
            } by {
                lemma_link(start, y as int, x as int, z);
                lemma_link(start, y as int, x as int, x as int);
            }
            lemma_link(start, y as int, x as int, 0);
        }
    } else if rank[x] > rank[y] {
        parent[y] = x;
        proof {
            assert forall|z: int| 0 <= z < start.len() implies #[trigger] root(parent@, z) == if root(start, z) == x || root(start, z) == y {
                root(parent@, x as int)
            } else {
                root(start, z)
            } by {
                lemma_link(start, x as int, y as int, z);
                lemma_link(start, x as int, y as int, x as int);
            }
            lemma_link(start, x as int, y as int, 0);
        }
    } else {
        parent[y] = x;
        rank[x] = rank[x] + 1;
        proof {
            assert forall|z: int| 0 <= z < start.len() implies #[trigger] root(parent@, z) == if root(start, z) == x || root(start, z) == y {
                root(parent@, x as int)
            } else {
                root(start, z)
            } by {
                lemma_link(start, x as int, y as int, z);
                lemma_link(start, x as int, y as int, x as int);
            }
            lemma_link(start, x as int, y as int, 0);
        }
    }
}

} // verus!
