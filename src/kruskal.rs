//! Union by rank that also keeps the size of every tree at its root, for
//! following how large components grow as edges are added by weight.
use crate::dsu::{forest, lemma_link, root};
use vstd::prelude::*;

verus! {

/// Joins the trees of the distinct roots `x` and `y` as `dsu::union` does, and
/// adds the size of the tree that goes under to the size kept at the other root.
pub fn union(parent: &mut [usize], rank: &mut [usize], size: &mut [usize], x: usize, y: usize)
    requires
        forest(old(parent)@),
        old(rank)@.len() == old(parent)@.len(),
        old(size)@.len() == old(parent)@.len(),
        x < old(parent)@.len(),
        y < old(parent)@.len(),
        x != y,
        old(parent)@[x as int] == x,
        old(parent)@[y as int] == y,
        old(rank)@[x as int] < usize::MAX,
        old(size)@[x as int] + old(size)@[y as int] <= usize::MAX,
    ensures
        forest(final(parent)@),
        final(rank)@.len() == old(rank)@.len(),
        final(size)@.len() == old(size)@.len(),
        old(rank)@[x as int] < old(rank)@[y as int] ==> final(parent)@ == old(parent)@.update(x as int, y)
            && final(rank)@ == old(rank)@ && final(size)@ == old(size)@.update(
            y as int,
            (old(size)@[x as int] + old(size)@[y as int]) as usize,
        ),
        old(rank)@[x as int] > old(rank)@[y as int] ==> final(parent)@ == old(parent)@.update(y as int, x)
            && final(rank)@ == old(rank)@ && final(size)@ == old(size)@.update(
            x as int,
            (old(size)@[x as int] + old(size)@[y as int]) as usize,
        ),
        old(rank)@[x as int] == old(rank)@[y as int] ==> final(parent)@ == old(parent)@.update(y as int, x)
            && final(rank)@ == old(rank)@.update(x as int, (old(rank)@[x as int] + 1) as usize)
            && final(size)@ == old(size)@.update(x as int, (old(size)@[x as int] + old(size)@[y as int]) as usize),
        forall|z: int|
            0 <= z < old(parent)@.len() ==> #[trigger] root(final(parent)@, z) == if root(old(parent)@, z) == x || root(
                old(parent)@,
                z,
            ) == y {
                root(final(parent)@, x as int)
            } else {
                root(old(parent)@, z)
            },
{
    let ghost start = parent@;
    if rank[x] < rank[y] {
        parent[x] = y;
        size[y] = size[y] + size[x];
        proof {
            assert forall|z: int| 0 <= z < start.len() implies #[trigger] root(parent@, z) == if root(start, z) == x
                || root(start, z) == y {
                root(parent@, x as int)
            } else {
                root(start, z)
            } by {
                lemma_link(start, y as int, x as int, z);
                lemma_link(start, y as int, x as int, x as int);
            }
            lemma_link(start, y as int, x as int, 0);
        }
    } else if rank[x] > rank[y] {
        parent[y] = x;
        size[x] = size[x] + size[y];
        proof {
            assert forall|z: int| 0 <= z < start.len() implies #[trigger] root(parent@, z) == if root(start, z) == x
                || root(start, z) == y {
                root(parent@, x as int)
            } else {
                root(start, z)
            } by {
                lemma_link(start, x as int, y as int, z);
                lemma_link(start, x as int, y as int, x as int);
            }
            lemma_link(start, x as int, y as int, 0);
        }
    } else {
        parent[y] = x;
        size[x] = size[x] + size[y];
        rank[x] = rank[x] + 1;
        proof {
            assert forall|z: int| 0 <= z < start.len() implies #[trigger] root(parent@, z) == if root(start, z) == x
                || root(start, z) == y {
                root(parent@, x as int)
            } else {
                root(start, z)
            } by {
                lemma_link(start, x as int, y as int, z);
                lemma_link(start, x as int, y as int, x as int);
            }
            lemma_link(start, x as int, y as int, 0);
        }
    }
}

} // verus!
