//! The order in which a component is attacked, and the per-point index of the
//! candidates that cover each point.
use vstd::prelude::*;

verus! {

/// How many randomized searches follow the deterministic one.
pub const RANDOM_RETRIES: usize = 3;

/// How many jittered candidates each point contributes to a randomized search.
pub const JITTER_SAMPLES: usize = 5;

/// One way of trying to cover a component.
#[derive(PartialEq, Eq, Structural, Clone, Copy, Debug)]
pub enum Attempt {
    /// A single circle around the whole component.
    Exact,
    /// The search over the points and the pairwise circle intersections.
    Fixed,
    /// The same search, with jittered candidates added.
    Jittered,
}

/// The `k`-th attempt on a component, counting from 0, when `retries`
/// randomized searches are allowed; `None` once every attempt has been made.
pub fn attempt(k: usize, retries: usize) -> (r: Option<Attempt>)
    ensures
        k == 0 ==> r == Some(Attempt::Exact),
        k == 1 ==> r == Some(Attempt::Fixed),
        2 <= k < 2 + retries ==> r == Some(Attempt::Jittered),
        k >= 2 + retries ==> r is None,
{
    if k == 0 {
        Some(Attempt::Exact)
    } else if k == 1 {
        Some(Attempt::Fixed)
    } else if k - 2 < retries {
        Some(Attempt::Jittered)
    } else {
        None
    }
}

/// `cover` is a table of `n` flags for each candidate.
pub open spec fn cover_table(cover: Seq<Vec<bool>>, n: nat) -> bool {
    forall|c: int| 0 <= c < cover.len() ==> (#[trigger] cover[c])@.len() == n
}

/// `list` holds, in increasing order, exactly the candidates that cover point `i`.
pub open spec fn lists_covering(cover: Seq<Vec<bool>>, i: int, list: Seq<usize>) -> bool {
    &&& forall|k: int| 0 <= k < list.len() ==> #[trigger] list[k] < cover.len()
    &&& forall|k: int| 0 <= k < list.len() ==> cover[#[trigger] list[k] as int]@[i]
    &&& forall|k1: int, k2: int| 0 <= k1 < k2 < list.len() ==> #[trigger] list[k1] < #[trigger] list[k2]
    &&& forall|c: int| 0 <= c < cover.len() && #[trigger] cover[c]@[i] ==> exists|k: int| 0 <= k < list.len() && #[trigger] list[k] == c
}

/// For each of the `n` points, the candidates whose circle covers it, in
/// candidate order.
pub fn coverage_index(cover: &Vec<Vec<bool>>, n: usize) -> (index: Vec<Vec<usize>>)
    requires
        cover_table(cover@, n as nat),
    ensures
        index@.len() == n,
        forall|i: int| 0 <= i < n ==> lists_covering(cover@, i, #[trigger] index@[i]@),
{
    let mut index: Vec<Vec<usize>> = Vec::new();
    let mut i: usize = 0;
    while i < n
        invariant
            i <= n,
            cover_table(cover@, n as nat),
            index@.len() == i,
            forall|j: int| 0 <= j < i ==> lists_covering(cover@, j, #[trigger] index@[j]@),
        decreases n - i,
    {
        let mut list: Vec<usize> = Vec::new();
        let mut c: usize = 0;
        while c < cover.len()
            invariant
                i < n,
                c <= cover@.len(),
                cover_table(cover@, n as nat),
                forall|k: int| 0 <= k < list@.len() ==> #[trigger] list@[k] < c,
                forall|k: int| 0 <= k < list@.len() ==> cover@[#[trigger] list@[k] as int]@[i as int],
                forall|k1: int, k2: int| 0 <= k1 < k2 < list@.len() ==> #[trigger] list@[k1] < #[trigger] list@[k2],
                forall|d: int| 0 <= d < c && #[trigger] cover@[d]@[i as int] ==> exists|k: int| 0 <= k < list@.len() && #[trigger] list@[k] == d,
            decreases cover@.len() - c,
        {
            if cover[c][i] {
                let ghost before = list@;
                list.push(c);
                proof {
                    assert forall|d: int| 0 <= d <= c && #[trigger] cover@[d]@[i as int] implies exists|k: int| 0 <= k < list@.len() && #[trigger] list@[k] == d by {
                        if d < c {
                            let k = choose|k: int| 0 <= k < before.len() && #[trigger] before[k] == d;
                            assert(list@[k] == d);
                        } else {
                            assert(list@[before.len() as int] == d);
                        }
                    }
                }
            }
            c = c + 1;
        }
        let ghost index0 = index@;
        index.push(list);
        proof {
            assert forall|j: int| 0 <= j <= i implies lists_covering(cover@, j, #[trigger] index@[j]@) by {
                if j < i {
                    assert(index@[j] == index0[j]);
                }
            }
        }
        i = i + 1;
    }
    index
}

} // verus!
