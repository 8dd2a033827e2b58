//! The residual graph of a min-cost flow network: every edge is stored with
//! its reverse, each knowing the other's position.
use vstd::prelude::*;

verus! {

/// A directed edge with its capacity, current flow, unit cost, and the index
/// of its reverse edge in the adjacency list of `to`.
#[derive(Clone, Copy)]
pub struct Edge {
    pub to: usize,
    pub capacity: i32,
    pub flow: i32,
    pub cost: i64,
    pub rev: usize,
}

/// Adjacency lists of residual edges, one per node.
pub struct Graph {
    pub adj: Vec<Vec<Edge>>,
}

impl Graph {
    /// A graph of `n` nodes and no edges.
    pub fn new(n: usize) -> (g: Graph)
        ensures
            g.adj@.len() == n,
            forall|v: int| 0 <= v < n ==> (#[trigger] g.adj@[v])@.len() == 0,
    {
        let mut adj: Vec<Vec<Edge>> = Vec::new();
        let mut i: usize = 0;
        while i < n
            invariant
                i <= n,
                adj@.len() == i,
                forall|v: int| 0 <= v < i ==> (#[trigger] adj@[v])@.len() == 0,
            decreases n - i,
        {
            adj.push(Vec::new());
            i = i + 1;
        }
        Graph { adj }
    }

    /// Adds an edge `from -> to` of capacity `cap` and cost `cost`, and its
    /// reverse `to -> from` of capacity 0 and cost `-cost`, both without flow.
    /// Each records the index the other took in its list, as measured before
    /// either was added.
    pub fn add_edge(&mut self, from: usize, to: usize, cap: i32, cost: i64)
        requires
            from < old(self).adj@.len(),
            to < old(self).adj@.len(),
            from != to,
            cost > i64::MIN,
        ensures
            final(self).adj@.len() == old(self).adj@.len(),
            forall|v: int| 0 <= v < old(self).adj@.len() && v != from && v != to ==> #[trigger] final(self).adj@[v] == old(self).adj@[v],
            final(self).adj@[from as int]@ == old(self).adj@[from as int]@.push(
                Edge { to, capacity: cap, flow: 0, cost, rev: old(self).adj@[to as int]@.len() as usize },
            ),
            final(self).adj@[to as int]@ == old(self).adj@[to as int]@.push(
                Edge { to: from, capacity: 0, flow: 0, cost: (-cost) as i64, rev: old(self).adj@[from as int]@.len() as usize },
            ),
    {
        let rev_from = self.adj[to].len();
        let rev_to = self.adj[from].len();
        self.adj[from].push(Edge { to, capacity: cap, flow: 0, cost, rev: rev_from });
        self.adj[to].push(Edge { to: from, capacity: 0, flow: 0, cost: -cost, rev: rev_to });
    }
}

} // verus!
