//! Depth-first search for a set of unit circles that covers every point of a
//! component, with chosen centres kept pairwise apart.
//!
//! The search is a state machine. The caller owns the geometry: at every node
//! it is told which point must be covered next and which candidates have been
//! chosen on the way down, and it answers with the candidates worth trying at
//! that node, in the order they are to be tried. For each candidate it reports
//! which points the circle covers and whether the centre keeps its distance
//! from every centre already chosen. The machine decides the rest: which point
//! to attack, which candidate to take, when to go deeper and when to backtrack.
use vstd::prelude::*;

verus! {

/// What the caller reports about one candidate centre at a search node.
pub struct Candidate {
    /// `covers[i]`: point `i` lies within the tolerance of a unit circle around the centre.
    pub covers: Vec<bool>,
    /// The centre is far enough from every centre already chosen on the current path.
    pub clear: bool,
}

/// One node of the search: the points covered on arrival, the point to cover
/// here, the candidates offered for it, and the index of the next one to try.
pub struct Frame {
    pub covered: Vec<bool>,
    pub target: usize,
    pub cands: Vec<Candidate>,
    pub next: usize,
}

/// What the search asks for, or how it ended.
pub enum Step {
    /// Offer the candidates for a new node whose first uncovered point is the given index.
    Expand(usize),
    /// The chosen candidates cover every point.
    Found,
    /// No choice of candidates covers every point.
    Exhausted,
}

/// The search: a stack of nodes, the candidate taken at each of them, and, while
/// the search waits for candidates, the points covered at the new node.
pub struct CoverSearch {
    pub n: usize,
    pub frames: Vec<Frame>,
    pub path: Vec<usize>,
    pub pending: Option<Vec<bool>>,
}

/// A candidate may be taken at a node when it keeps clear of the chosen centres
/// and covers the node's target point.
pub open spec fn usable(c: Candidate, target: int) -> bool {
    c.clear && c.covers@[target]
}

/// No candidate from index `from` on may be taken at the node.
pub open spec fn spent_from(f: Frame, from: int) -> bool {
    forall|j: int| from <= j < f.cands@.len() ==> !usable(#[trigger] f.cands@[j], f.target as int)
}

/// `t` is the lowest index that `covered` leaves uncovered.
pub open spec fn first_gap(covered: Seq<bool>, t: int) -> bool {
    &&& 0 <= t < covered.len()
    &&& !covered[t]
    &&& forall|j: int| 0 <= j < t ==> covered[j]
}

/// Every point is covered.
pub open spec fn all_covered(covered: Seq<bool>) -> bool {
    forall|j: int| 0 <= j < covered.len() ==> covered[j]
}

/// The candidate taken at depth `d`.
pub open spec fn chosen(frames: Seq<Frame>, path: Seq<usize>, d: int) -> Candidate {
    frames[d].cands@[path[d] as int]
}

/// Point `i` is covered by a candidate taken above depth `k`.
pub open spec fn covered_above(frames: Seq<Frame>, path: Seq<usize>, k: int, i: int) -> bool {
    exists|e: int| 0 <= e < k && (#[trigger] chosen(frames, path, e)).covers@[i]
}

/// Every candidate offered at the node reports on all `n` points.
pub open spec fn frame_shape(f: Frame, n: nat) -> bool {
    &&& f.covered@.len() == n
    &&& forall|j: int| 0 <= j < f.cands@.len() ==> (#[trigger] f.cands@[j]).covers@.len() == n
    &&& first_gap(f.covered@, f.target as int)
    &&& f.next <= f.cands@.len()
}

/// The stack is consistent with the path: each node's covered points are those
/// of the candidates taken above it, and each taken candidate is usable and the
/// last one tried at its node.
pub open spec fn stack_ok(frames: Seq<Frame>, path: Seq<usize>, n: nat) -> bool {
    &&& path.len() <= frames.len()
    &&& forall|d: int| 0 <= d < frames.len() ==> frame_shape(#[trigger] frames[d], n)
    &&& forall|d: int, i: int|
        0 <= d < frames.len() && 0 <= i < n ==> (#[trigger] frames[d].covered@[i]
            <==> covered_above(frames, path, d, i))
    &&& forall|d: int|
        0 <= d < path.len() ==> {
            &&& (#[trigger] path[d]) < frames[d].cands@.len()
            &&& frames[d].next == path[d] + 1
            &&& usable(chosen(frames, path, d), frames[d].target as int)
        }
}

/// Candidates of the right shape for a search over `n` points.
pub open spec fn cands_shape(cands: Seq<Candidate>, n: nat) -> bool {
    forall|j: int| 0 <= j < cands.len() ==> (#[trigger] cands[j]).covers@.len() == n
}

impl CoverSearch {
    /// The search is waiting for the candidates of a new node.
    pub open spec fn waiting(self) -> bool {
        self.pending is Some
    }

    pub open spec fn wf(self) -> bool {
        &&& stack_ok(self.frames@, self.path@, self.n as nat)
        &&& match self.pending {
            Some(p) => {
                &&& self.path@.len() == self.frames@.len()
                &&& p@.len() == self.n
                &&& forall|i: int|
                    0 <= i < self.n ==> (p@[i] <==> covered_above(
                        self.frames@,
                        self.path@,
                        self.path@.len() as int,
                        i,
                    ))
                &&& !all_covered(p@)
            },
            None => true,
        }
    }

    /// The node that `offer` puts on the stack.
    pub open spec fn new_frame(self, cands: Vec<Candidate>, target: int) -> Frame {
        Frame { covered: self.pending->0, target: target as usize, cands, next: 0 }
    }

    /// A search over `n` points, and its first step: done at once when there is
    /// no point, else a request for the candidates that cover point 0.
    pub fn start(n: usize) -> (r: (CoverSearch, Step))
        ensures
            r.0.wf(),
            r.0.n == n,
            r.0.frames@.len() == 0,
            r.0.path@.len() == 0,
            n == 0 ==> r.1 is Found && !r.0.waiting(),
            n > 0 ==> r.1 == Step::Expand(0) && r.0.waiting() && r.0.pending->0@ == Seq::new(
                n as nat,
                |i: int| false,
            ),
    {
        let mut covered: Vec<bool> = Vec::new();
        let mut i: usize = 0;
        while i < n
            invariant
                i <= n,
                covered@ == Seq::new(i as nat, |j: int| false),
            decreases n - i,
        {
            covered.push(false);
            i = i + 1;
            assert(covered@ =~= Seq::new(i as nat, |j: int| false));
        }
        if n == 0 {
            (CoverSearch { n, frames: Vec::new(), path: Vec::new(), pending: None }, Step::Found)
        } else {
            assert(!covered@[0]);
            (CoverSearch { n, frames: Vec::new(), path: Vec::new(), pending: Some(covered) }, Step::Expand(0))
        }
    }

    /// The candidates taken so far, one per node from the root down.
    pub fn path(&self) -> (r: &Vec<usize>)
        ensures
            r@ == self.path@,
    {
        &self.path
    }

    /// Takes the candidates of the node that the search asked for, and runs the
    /// search until it needs the candidates of another node or ends.
    ///
    /// The new node goes on top of the stack. Then the topmost node that still
    /// has a usable candidate at or after its next index takes the first such
    /// candidate; every node above it is dropped with the candidate taken at
    /// its parent. If the candidates taken then cover every point the search
    /// has found a cover; otherwise it asks for the first uncovered point. If no
    /// node has a usable candidate left, the search is exhausted.
    pub fn offer(&mut self, cands: Vec<Candidate>) -> (step: Step)
        requires
            old(self).wf(),
            old(self).waiting(),
            cands_shape(cands@, old(self).n as nat),
        ensures
            final(self).wf(),
            final(self).n == old(self).n,
            ({
                let t = choose|t: int| first_gap(old(self).pending->0@, t);
                let all = old(self).frames@.push(old(self).new_frame(cands, t));
                let k = final(self).frames@.len() - 1;
                &&& first_gap(old(self).pending->0@, t)
                &&& step is Exhausted ==> {
                    &&& final(self).frames@.len() == 0
                    &&& final(self).path@.len() == 0
                    &&& !final(self).waiting()
                    &&& forall|d: int| 0 <= d < all.len() ==> spent_from(#[trigger] all[d], all[d].next as int)
                }
                &&& step !is Exhausted ==> {
                    &&& 0 <= k < all.len()
                    &&& final(self).frames@.take(k) == all.take(k)
                    &&& final(self).path@.len() == k + 1
                    &&& final(self).path@.take(k) == old(self).path@.take(k)
                    &&& final(self).frames@[k] == (Frame { next: (final(self).path@[k] + 1) as usize, ..all[k] })
                    &&& all[k].next <= final(self).path@[k] < all[k].cands@.len()
                    &&& usable(all[k].cands@[final(self).path@[k] as int], all[k].target as int)
                    &&& forall|j: int| all[k].next <= j < final(self).path@[k] ==> !usable(#[trigger] all[k].cands@[j], all[k].target as int)
                    &&& forall|d: int| k < d < all.len() ==> spent_from(#[trigger] all[d], all[d].next as int)
                }
                &&& step is Found ==> !final(self).waiting() && forall|i: int| 0 <= i < final(self).n ==> covered_above(final(self).frames@, final(self).path@, final(self).path@.len() as int, i)
                &&& step matches Step::Expand(u) ==> final(self).waiting() && first_gap(final(self).pending->0@, u as int)
            }),
    {
        let covered = match self.pending.take() {
            Some(p) => p,
            None => Vec::new(),
        };
        let target = first_gap_of(&covered);
        let ghost all = self.frames@.push(Frame { covered, target, cands, next: 0 });
        proof {
            let t = choose|t: int| first_gap(old(self).pending->0@, t);
            lemma_first_gap_unique(covered@, t, target as int);
        }
        let ghost frames0 = self.frames@;
        let ghost path0 = self.path@;
        let ghost n = self.n;
        self.frames.push(Frame { covered, target, cands, next: 0 });
        assert(self.frames@ == all);
        proof {
            assert forall|e: int| 0 <= e < path0.len() implies #[trigger] chosen(all, path0, e) == chosen(frames0, path0, e) by {
                assert(all[e] == frames0[e]);
            }
            assert forall|d: int, i: int| 0 <= d <= frames0.len() && 0 <= i < n implies
                (covered_above(all, path0, d, i) <==> covered_above(frames0, path0, d, i)) by {
                if covered_above(all, path0, d, i) {
                    let e = choose|e: int| 0 <= e < d && (#[trigger] chosen(all, path0, e)).covers@[i];
                    assert(chosen(frames0, path0, e) == chosen(all, path0, e));
                }
                if covered_above(frames0, path0, d, i) {
                    let e = choose|e: int| 0 <= e < d && (#[trigger] chosen(frames0, path0, e)).covers@[i];
                    assert(chosen(frames0, path0, e) == chosen(all, path0, e));
                }
            }
            assert forall|d: int| 0 <= d < all.len() implies frame_shape(#[trigger] all[d], n as nat) by {
                if d < frames0.len() {
                    assert(all[d] == frames0[d]);
                }
            }
            assert forall|d: int, i: int| 0 <= d < all.len() && 0 <= i < n implies (#[trigger] all[d].covered@[i]
                <==> covered_above(all, path0, d, i)) by {
                if d < frames0.len() {
                    assert(all[d] == frames0[d]);
                }
            }
            assert forall|d: int| 0 <= d < path0.len() implies {
                &&& (#[trigger] path0[d]) < all[d].cands@.len()
                &&& all[d].next == path0[d] + 1
                &&& usable(chosen(all, path0, d), all[d].target as int)
            } by {
                assert(all[d] == frames0[d]);
            }
        }
        self.advance(Ghost(all))
    }

    /// Runs the search from a stack whose top node has not been tried yet.
    fn advance(&mut self, Ghost(all): Ghost<Seq<Frame>>) -> (step: Step)
        requires
            stack_ok(old(self).frames@, old(self).path@, old(self).n as nat),
            old(self).frames@.len() == old(self).path@.len() + 1,
            old(self).frames@ == all,
            old(self).pending is None,
        ensures
            final(self).wf(),
            final(self).n == old(self).n,
            ({
                let k = final(self).frames@.len() - 1;
                &&& step is Exhausted ==> {
                    &&& final(self).frames@.len() == 0
                    &&& final(self).path@.len() == 0
                    &&& !final(self).waiting()
                    &&& forall|d: int| 0 <= d < all.len() ==> spent_from(#[trigger] all[d], all[d].next as int)
                }
                &&& step !is Exhausted ==> {
                    &&& 0 <= k < all.len()
                    &&& final(self).frames@.take(k) == all.take(k)
                    &&& final(self).path@.len() == k + 1
                    &&& final(self).path@.take(k) == old(self).path@.take(k)
                    &&& final(self).frames@[k] == (Frame { next: (final(self).path@[k] + 1) as usize, ..all[k] })
                    &&& all[k].next <= final(self).path@[k] < all[k].cands@.len()
                    &&& usable(all[k].cands@[final(self).path@[k] as int], all[k].target as int)
                    &&& forall|j: int| all[k].next <= j < final(self).path@[k] ==> !usable(#[trigger] all[k].cands@[j], all[k].target as int)
                    &&& forall|d: int| k < d < all.len() ==> spent_from(#[trigger] all[d], all[d].next as int)
                }
                &&& step is Found ==> !final(self).waiting() && forall|i: int| 0 <= i < final(self).n ==> covered_above(final(self).frames@, final(self).path@, final(self).path@.len() as int, i)
                &&& step matches Step::Expand(u) ==> final(self).waiting() && first_gap(final(self).pending->0@, u as int)
            }),
    {
        loop
            invariant
                stack_ok(self.frames@, self.path@, self.n as nat),
                self.frames@.len() == 0 ==> self.path@.len() == 0,
                self.frames@.len() > 0 ==> self.frames@.len() == self.path@.len() + 1,
                self.frames@.len() <= all.len(),
                self.frames@ == all.take(self.frames@.len() as int),
                self.path@.len() <= old(self).path@.len(),
                self.path@ == old(self).path@.take(self.path@.len() as int),
                self.pending is None,
                self.n == old(self).n,
                forall|d: int| self.frames@.len() <= d < all.len() ==> spent_from(#[trigger] all[d], all[d].next as int),
            decreases self.frames@.len(),
        {
            let ghost frames0 = self.frames@;
            let ghost path0 = self.path@;
            if self.frames.len() == 0 {
                return Step::Exhausted;
            }
            let top = self.frames.len() - 1;
            let found = first_usable(&self.frames[top].cands, self.frames[top].target, self.frames[top].next);
            match found {
                Some(i) => {
                    let mut f = self.frames.pop().unwrap();
                    assert(f == frames0[top as int]);
                    let covered = union_of(&f.covered, &f.cands[i].covers);
                    let nc = f.cands.len();
                    assert(i < nc);
                    f.next = i + 1;
                    self.frames.push(f);
                    self.path.push(i);
                    proof {
                        let frames1 = self.frames@;
                        let path1 = self.path@;
                        assert(frames1.take(top as int) =~= frames0.take(top as int));
                        assert(path1.take(top as int) =~= path0);
                        assert forall|e: int| 0 <= e < top implies #[trigger] chosen(frames1, path1, e) == chosen(frames0, path0, e) by {
                            assert(frames1[e] == frames0[e]);
                            assert(path1[e] == path0[e]);
                        }
                        assert forall|d: int, i2: int| 0 <= d <= top && 0 <= i2 < self.n implies
                            (covered_above(frames1, path1, d, i2) <==> covered_above(frames0, path0, d, i2)) by {
                            if covered_above(frames1, path1, d, i2) {
                                let e = choose|e: int| 0 <= e < d && (#[trigger] chosen(frames1, path1, e)).covers@[i2];
                                assert(chosen(frames0, path0, e) == chosen(frames1, path1, e));
                            }
                            if covered_above(frames0, path0, d, i2) {
                                let e = choose|e: int| 0 <= e < d && (#[trigger] chosen(frames0, path0, e)).covers@[i2];
                                assert(chosen(frames0, path0, e) == chosen(frames1, path1, e));
                            }
                        }
                        assert forall|i2: int| 0 <= i2 < self.n implies (covered@[i2] <==> covered_above(frames1, path1, top + 1, i2)) by {
                            if covered_above(frames1, path1, top + 1, i2) {
                                let e = choose|e: int| 0 <= e < top + 1 && (#[trigger] chosen(frames1, path1, e)).covers@[i2];
                                if e < top {
                                    assert(covered_above(frames0, path0, top as int, i2));
                                }
                            }
                            if covered@[i2] && !frames0[top as int].covered@[i2] {
                                assert(chosen(frames1, path1, top as int).covers@[i2]);
                            }
                            if frames0[top as int].covered@[i2] {
                                assert(covered_above(frames0, path0, top as int, i2));
                                let e = choose|e: int| 0 <= e < top && (#[trigger] chosen(frames0, path0, e)).covers@[i2];
                                assert(chosen(frames1, path1, e) == chosen(frames0, path0, e));
                            }
                        }
                        assert(stack_ok(frames1, path1, self.n as nat)) by {
                            assert forall|d: int| 0 <= d < frames1.len() implies frame_shape(#[trigger] frames1[d], self.n as nat) by {
                                if d < top {
                                    assert(frames1[d] == frames0[d]);
                                }
                            }
                            assert forall|d: int, i2: int| 0 <= d < frames1.len() && 0 <= i2 < self.n implies (#[trigger] frames1[d].covered@[i2]
                                <==> covered_above(frames1, path1, d, i2)) by {
                                assert(frames1[d].covered@ == frames0[d].covered@);
                            }
                            assert forall|d: int| 0 <= d < path1.len() implies {
                                &&& (#[trigger] path1[d]) < frames1[d].cands@.len()
                                &&& frames1[d].next == path1[d] + 1
                                &&& usable(chosen(frames1, path1, d), frames1[d].target as int)
                            } by {
                                if d < top {
                                    assert(frames1[d] == frames0[d]);
                                    assert(path1[d] == path0[d]);
                                }
                            }
                        }
                        assert(self.frames@.take(top as int) =~= all.take(top as int));
                    }
                    match first_gap_opt(&covered) {
                        Some(u) => {
                            self.pending = Some(covered);
                            return Step::Expand(u);
                        },
                        None => {
                            return Step::Found;
                        },
                    }
                },
                None => {
                    self.frames.pop();
                    if self.path.len() > 0 {
                        self.path.pop();
                    }
                    proof {
                        let frames1 = self.frames@;
                        let path1 = self.path@;
                        assert(frames1 =~= all.take(frames1.len() as int));
                        assert(path1 =~= path0.take(path1.len() as int));
                        assert forall|j: int| 0 <= j < path1.len() implies path1[j] == old(self).path@[j] by {
                            assert(path0[j] == old(self).path@.take(path0.len() as int)[j]);
                        }
                        assert(path1 =~= old(self).path@.take(path1.len() as int));
                        assert forall|e: int| 0 <= e < path1.len() implies #[trigger] chosen(frames1, path1, e) == chosen(frames0, path0, e) by {
                            assert(frames1[e] == frames0[e]);
                            assert(path1[e] == path0[e]);
                        }
                        assert forall|d: int, i2: int| 0 <= d < frames1.len() && 0 <= i2 < self.n implies
                            (covered_above(frames1, path1, d, i2) <==> covered_above(frames0, path0, d, i2)) by {
                            if covered_above(frames1, path1, d, i2) {
                                let e = choose|e: int| 0 <= e < d && (#[trigger] chosen(frames1, path1, e)).covers@[i2];
                                assert(chosen(frames0, path0, e) == chosen(frames1, path1, e));
                            }
                            if covered_above(frames0, path0, d, i2) {
                                let e = choose|e: int| 0 <= e < d && (#[trigger] chosen(frames0, path0, e)).covers@[i2];
                                assert(chosen(frames0, path0, e) == chosen(frames1, path1, e));
                            }
                        }
                        assert(stack_ok(frames1, path1, self.n as nat)) by {
                            assert forall|d: int| 0 <= d < frames1.len() implies frame_shape(#[trigger] frames1[d], self.n as nat) by {
                                assert(frames1[d] == frames0[d]);
                            }
                            assert forall|d: int, i2: int| 0 <= d < frames1.len() && 0 <= i2 < self.n implies (#[trigger] frames1[d].covered@[i2]
                                <==> covered_above(frames1, path1, d, i2)) by {
                                assert(frames1[d] == frames0[d]);
                            }
                            assert forall|d: int| 0 <= d < path1.len() implies {
                                &&& (#[trigger] path1[d]) < frames1[d].cands@.len()
                                &&& frames1[d].next == path1[d] + 1
                                &&& usable(chosen(frames1, path1, d), frames1[d].target as int)
                            } by {
                                assert(frames1[d] == frames0[d]);
                                assert(path1[d] == path0[d]);
                            }
                        }
                        assert(frames0[top as int] == all[top as int]);
                    }
                },
            }
        }
    }
}

/// A cover that the search reports holds as a cover: every point lies in the
/// circle of some chosen candidate, and every chosen candidate covers the point
/// its node targeted and was reported clear of all candidates chosen above it,
/// so that chosen centres are pairwise apart.
pub proof fn lemma_found_cover(s: CoverSearch)
    requires
        s.wf(),
        s.path@.len() == s.frames@.len(),
        forall|i: int| 0 <= i < s.n ==> covered_above(s.frames@, s.path@, s.path@.len() as int, i),
    ensures
        forall|i: int|
            0 <= i < s.n ==> #[trigger] covered_above(s.frames@, s.path@, s.path@.len() as int, i),
        forall|d: int|
            0 <= d < s.path@.len() ==> (#[trigger] chosen(s.frames@, s.path@, d)).clear && chosen(
                s.frames@,
                s.path@,
                d,
            ).covers@[s.frames@[d].target as int],
{
    assert forall|d: int| 0 <= d < s.path@.len() implies (#[trigger] chosen(s.frames@, s.path@, d)).clear
        && chosen(s.frames@, s.path@, d).covers@[s.frames@[d].target as int] by {
        assert(usable(chosen(s.frames@, s.path@, d), s.frames@[d].target as int));
    }
}

/// Two lowest gaps of one sequence are the same index.
proof fn lemma_first_gap_unique(covered: Seq<bool>, a: int, b: int)
    requires
        first_gap(covered, a),
        first_gap(covered, b),
    ensures
        a == b,
{
    if a < b {
        assert(covered[a]);
    } else if b < a {
        assert(covered[b]);
    }
}

/// The lowest index left uncovered, if any.
fn first_gap_opt(covered: &Vec<bool>) -> (r: Option<usize>)
    ensures
        r matches Some(t) ==> first_gap(covered@, t as int),
        r is None ==> all_covered(covered@),
{
    let mut i: usize = 0;
    while i < covered.len()
        invariant
            i <= covered@.len(),
            forall|j: int| 0 <= j < i ==> covered@[j],
        decreases covered@.len() - i,
    {
        if !covered[i] {
            return Some(i);
        }
        i = i + 1;
    }
    None
}

/// The lowest index left uncovered, where one is known to exist.
fn first_gap_of(covered: &Vec<bool>) -> (r: usize)
    requires
        !all_covered(covered@),
    ensures
        first_gap(covered@, r as int),
{
    match first_gap_opt(covered) {
        Some(t) => t,
        None => 0,
    }
}

/// The first candidate at index `from` or later that may be taken for `target`.
fn first_usable(cands: &Vec<Candidate>, target: usize, from: usize) -> (r: Option<usize>)
    requires
        forall|j: int| 0 <= j < cands@.len() ==> target < (#[trigger] cands@[j]).covers@.len(),
    ensures
        r matches Some(i) ==> from <= i < cands@.len() && usable(cands@[i as int], target as int)
            && forall|j: int| from <= j < i ==> !usable(#[trigger] cands@[j], target as int),
        r is None ==> forall|j: int| from <= j < cands@.len() ==> !usable(#[trigger] cands@[j], target as int),
{
    let mut i: usize = from;
    while i < cands.len()
        invariant
            from <= i,
            forall|j: int| 0 <= j < cands@.len() ==> target < (#[trigger] cands@[j]).covers@.len(),
            forall|j: int| from <= j < i ==> !usable(#[trigger] cands@[j], target as int),
        decreases cands@.len() - i,
    {
        if cands[i].clear && cands[i].covers[target] {
            return Some(i);
        }
        i = i + 1;
    }
    None
}

/// Pointwise "or" of two coverage sets of one length.
fn union_of(a: &Vec<bool>, b: &Vec<bool>) -> (r: Vec<bool>)
    requires
        a@.len() == b@.len(),
    ensures
        r@.len() == a@.len(),
        forall|i: int| 0 <= i < a@.len() ==> r@[i] == (a@[i] || b@[i]),
{
    let mut r: Vec<bool> = Vec::new();
    let mut i: usize = 0;
    while i < a.len()
        invariant
            i <= a@.len(),
            a@.len() == b@.len(),
            r@.len() == i,
            forall|j: int| 0 <= j < i ==> r@[j] == (a@[j] || b@[j]),
        decreases a@.len() - i,
    {
        r.push(a[i] || b[i]);
        i = i + 1;
    }
    r
}

} // verus!
