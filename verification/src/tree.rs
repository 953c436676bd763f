//! The mathematical model of a breadth-first search tree, and what holds of it.

use vstd::prelude::*;
use crate::walk::{
    distance, has_edge, is_shortest, is_walk_between, lemma_shortest_is_distance, reachable,
    step_follows_edge,
};

verus! {

/// What a shortest-path tree records: its root, for every node the parent
/// through which it was first discovered and its distance from the root, and
/// the order in which the nodes were discovered.
pub struct TreeView {
    pub source: usize,
    pub parent: Seq<Option<usize>>,
    pub distance: Seq<Option<usize>>,
    pub order: Seq<usize>,
}

impl TreeView {
    /// The parent and distance of node `v` agree: a node with a parent lies
    /// one edge further from the root than its parent, and a node without
    /// one is the root or was never discovered.
    pub open spec fn link_ok(self, v: int) -> bool {
        match self.parent[v] {
            Some(p) => {
                &&& p < self.parent.len()
                &&& self.distance[p as int] is Some
                &&& self.distance[v] is Some
                &&& self.distance[v].unwrap() == self.distance[p as int].unwrap() + 1
            },
            None => v == self.source || self.distance[v] is None,
        }
    }

    /// The root has distance 0 and no parent, and every other node's parent
    /// and distance agree.
    pub open spec fn well_formed(self) -> bool {
        &&& self.distance.len() == self.parent.len()
        &&& self.parent.len() <= usize::MAX
        &&& self.source < self.parent.len()
        &&& self.distance[self.source as int] == Some(0usize)
        &&& self.parent[self.source as int] is None
        &&& forall|v: int| 0 <= v < self.parent.len() ==> #[trigger] self.link_ok(v)
    }

    /// The node reached from `v` by following `k` parent links, stopping at a
    /// node without a parent.
    pub open spec fn ancestor(self, v: usize, k: nat) -> usize
        decreases k,
    {
        if k == 0 {
            v
        } else {
            let a = self.ancestor(v, (k - 1) as nat);
            match self.parent[a as int] {
                Some(p) => p,
                None => a,
            }
        }
    }

    /// The tree's path to a discovered node `v`: its ancestors from the root
    /// down, ending in `v` itself.
    pub open spec fn path_to(self, v: usize) -> Seq<usize> {
        let d = self.distance[v as int].unwrap();
        Seq::new((d + 1) as nat, |i: int| self.ancestor(v, (d - i) as nat))
    }

    /// The parent of `v`, where it has one, has an edge to `v` and is the
    /// first node of the discovery order that has one.
    pub open spec fn parent_is_first_discoverer(self, adj: Seq<Seq<usize>>, v: int) -> bool {
        match self.parent[v] {
            Some(p) => {
                &&& has_edge(adj, p, v as usize)
                &&& self.order.contains(p)
                &&& forall|j: int|
                    0 <= j < self.order.index_of(p) ==> !(#[trigger] adj[self.order[j] as int]).contains(
                        v as usize,
                    )
            },
            None => true,
        }
    }
}

/// The entries of `s` without repetitions, each at the place of its first
/// occurrence.
pub open spec fn first_occurrences(s: Seq<usize>) -> Seq<usize>
    decreases s.len(),
{
    if s.len() == 0 {
        Seq::empty()
    } else {
        let rest = first_occurrences(s.drop_last());
        if rest.contains(s.last()) {
            rest
        } else {
            rest.push(s.last())
        }
    }
}

/// What a search has looked at when it stands at entry `k` of the adjacency
/// list of `order[j]`: the root, then the whole lists of `order[0]`, ..,
/// `order[j - 1]`, then the first `k` entries of the list of `order[j]`.
pub open spec fn scanned(adj: Seq<Seq<usize>>, order: Seq<usize>, j: nat, k: nat) -> Seq<usize>
    decreases j, k,
{
    if k > 0 {
        scanned(adj, order, j, (k - 1) as nat).push(adj[order[j as int] as int][k - 1])
    } else if j > 0 {
        scanned(adj, order, (j - 1) as nat, adj[order[j - 1] as int].len())
    } else {
        seq![order[0]]
    }
}

/// `t` is the breadth-first search tree of the graph from `t.source`.
///
/// The discovery order starts with the root and lists every node once, at
/// the place where the search first met it while it went through the
/// adjacency lists of the discovered nodes in discovery order. A node has a
/// distance exactly if it was discovered, and its parent is the first
/// discovered node with an edge to it.
pub open spec fn is_breadth_first(adj: Seq<Seq<usize>>, t: TreeView) -> bool {
    &&& t.well_formed()
    &&& adj.len() == t.parent.len()
    &&& t.order.len() > 0
    &&& t.order[0] == t.source
    &&& forall|i: int| 0 <= i < t.order.len() ==> (#[trigger] t.order[i]) < adj.len()
    &&& t.order == first_occurrences(scanned(adj, t.order, t.order.len(), 0))
    &&& forall|v: int|
        0 <= v < adj.len() ==> ((#[trigger] t.distance[v]) is Some <==> t.order.contains(v as usize))
    &&& forall|v: int| 0 <= v < adj.len() ==> #[trigger] t.parent_is_first_discoverer(adj, v)
}

/// Every distance in `t` is the length of a shortest walk from the root, and
/// the nodes without a distance are those the root does not reach.
pub open spec fn distances_are_shortest(adj: Seq<Seq<usize>>, t: TreeView) -> bool {
    forall|v: int|
        0 <= v < adj.len() ==> match #[trigger] t.distance[v] {
            Some(d) => is_shortest(adj, t.source, v as usize, d as nat),
            None => !reachable(adj, t.source, v as usize),
        }
}

/// The root lies at distance 0 from itself, and every other node with a
/// distance has a parent whose distance is one less.
pub proof fn lemma_distance_follows_parent(t: TreeView, v: usize)
    requires
        t.well_formed(),
        v < t.parent.len(),
        t.distance[v as int] is Some,
    ensures
        t.distance[t.source as int] == Some(0usize),
        v != t.source ==> {
            &&& t.parent[v as int] is Some
            &&& t.parent[v as int].unwrap() < t.parent.len()
            &&& t.distance[t.parent[v as int].unwrap() as int] is Some
            &&& t.distance[v as int].unwrap() == t.distance[t.parent[v as int].unwrap() as int].unwrap()
                + 1
        },
{
    assert(t.link_ok(v as int));
}

/// Following `k <= d` parent links from a node at distance `d` leads to a
/// node at distance `d - k`.
pub proof fn lemma_ancestor_distance(t: TreeView, v: usize, k: nat)
    requires
        t.well_formed(),
        v < t.parent.len(),
        t.distance[v as int] is Some,
        k <= t.distance[v as int].unwrap(),
    ensures
        t.ancestor(v, k) < t.parent.len(),
        t.distance[t.ancestor(v, k) as int] == Some((t.distance[v as int].unwrap() - k) as usize),
    decreases k,
{
    if k > 0 {
        lemma_ancestor_distance(t, v, (k - 1) as nat);
        let a = t.ancestor(v, (k - 1) as nat);
        assert(t.link_ok(a as int));
    }
}

/// Only the root has distance 0.
pub proof fn lemma_distance_zero_is_source(t: TreeView, v: usize)
    requires
        t.well_formed(),
        v < t.parent.len(),
        t.distance[v as int] == Some(0usize),
    ensures
        v == t.source,
{
    assert(t.link_ok(v as int));
}

/// The path to a discovered node starts at the root, ends at the node, has
/// one more node than the node's distance, and leads from each node to one
/// whose parent it is.
pub proof fn lemma_path_shape(t: TreeView, v: usize)
    requires
        t.well_formed(),
        v < t.parent.len(),
        t.distance[v as int] is Some,
    ensures
        t.path_to(v).len() == t.distance[v as int].unwrap() + 1,
        t.path_to(v)[0] == t.source,
        t.path_to(v).last() == v,
        forall|i: int|
            0 <= i < t.path_to(v).len() ==> {
                &&& (#[trigger] t.path_to(v)[i]) < t.parent.len()
                &&& t.distance[t.path_to(v)[i] as int] == Some(i as usize)
            },
        forall|i: int|
            0 <= i < t.path_to(v).len() - 1 ==> t.parent[#[trigger] t.path_to(v)[i + 1] as int]
                == Some(t.path_to(v)[i]),
{
    let d = t.distance[v as int].unwrap();
    let p = t.path_to(v);
    assert forall|i: int| 0 <= i < p.len() implies {
        &&& (#[trigger] p[i]) < t.parent.len()
        &&& t.distance[p[i] as int] == Some(i as usize)
    } by {
        lemma_ancestor_distance(t, v, (d - i) as nat);
    }
    lemma_distance_zero_is_source(t, p[0]);
    assert forall|i: int| 0 <= i < p.len() - 1 implies t.parent[#[trigger] p[i + 1] as int] == Some(
        p[i],
    ) by {
        let a = p[i + 1];
        assert(a == t.ancestor(v, (d - i - 1) as nat));
        assert(t.distance[a as int] == Some((i + 1) as usize));
        assert(t.link_ok(a as int));
        assert(t.parent[a as int] is Some);
        assert(p[i] == t.ancestor(v, (d - i) as nat));
    }
}

/// In the breadth-first tree of a graph, the path to a discovered node is a
/// walk of the graph from the root to that node, and no walk between the two
/// has fewer edges.
pub proof fn lemma_path_is_shortest_walk(adj: Seq<Seq<usize>>, t: TreeView, v: usize)
    requires
        is_breadth_first(adj, t),
        distances_are_shortest(adj, t),
        v < adj.len(),
        t.distance[v as int] is Some,
    ensures
        is_walk_between(adj, t.path_to(v), t.source, v, t.distance[v as int].unwrap() as nat),
        is_shortest(adj, t.source, v, t.distance[v as int].unwrap() as nat),
{
    lemma_path_shape(t, v);
    let p = t.path_to(v);
    assert forall|i: int| 0 <= i < p.len() - 1 implies #[trigger] step_follows_edge(adj, p, i) by {
        let child = p[i + 1];
        assert(t.parent[child as int] == Some(p[i]));
        assert(t.parent_is_first_discoverer(adj, child as int));
    }
}

/// A node that the root does not reach has no distance in the root's
/// breadth-first tree, and a node that it reaches has one.
pub proof fn lemma_discovered_iff_reachable(adj: Seq<Seq<usize>>, t: TreeView, v: usize)
    requires
        distances_are_shortest(adj, t),
        v < adj.len(),
    ensures
        t.distance[v as int] is Some <==> reachable(adj, t.source, v),
        t.distance[v as int] is Some ==> t.distance[v as int].unwrap() == distance(
            adj,
            t.source,
            v,
        ),
{
    match t.distance[v as int] {
        Some(d) => {
            lemma_shortest_is_distance(adj, t.source, v, d as nat);
        },
        None => {},
    }
}

} // verus!
