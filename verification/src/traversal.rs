//! Breadth-first search: shortest-path trees, paths and the diameter.

use vstd::prelude::*;
use crate::discovery::{breadth_first_tree, lemma_is_the_breadth_first_tree};
use crate::graph::Graph;
use crate::search::{
    initial, lemma_advance, lemma_discover, lemma_finished, lemma_initial, lemma_order_bounded,
    lemma_skip, Search,
};
use crate::tree::{
    distances_are_shortest, is_breadth_first, lemma_ancestor_distance,
    lemma_path_is_shortest_walk, lemma_path_shape, TreeView,
};
use crate::walk::{
    distance, is_shortest, is_walk_between, lemma_shortest_is_distance, reachable,
    step_follows_edge, walk_exists,
};

verus! {

/// The result of a breadth-first search from one node: for every node of the
/// graph its parent and its distance from the root, where the root reaches
/// it, and the order in which the search discovered the nodes.
pub struct ShortestPathTree {
    source: usize,
    parent: Vec<Option<usize>>,
    distance: Vec<Option<usize>>,
    order: Vec<usize>,
}

impl View for ShortestPathTree {
    type V = TreeView;

    closed spec fn view(&self) -> TreeView {
        TreeView {
            source: self.source,
            parent: self.parent@,
            distance: self.distance@,
            order: self.order@,
        }
    }
}

/// `d` is the greatest distance between two nodes of which the first
/// reaches the second, and 0 where the graph has no node.
pub open spec fn is_diameter(adj: Seq<Seq<usize>>, d: nat) -> bool {
    &&& forall|s: usize, t: usize, len: nat| #[trigger] is_shortest(adj, s, t, len) ==> len <= d
    &&& d == 0 || exists|s: usize, t: usize| #[trigger] is_shortest(adj, s, t, d)
}

/// A graph has one diameter.
pub proof fn lemma_diameter_unique(adj: Seq<Seq<usize>>, d1: nat, d2: nat)
    requires
        is_diameter(adj, d1),
        is_diameter(adj, d2),
    ensures
        d1 == d2,
{
    if d1 < d2 {
        let (s, t) = choose|s: usize, t: usize| #[trigger] is_shortest(adj, s, t, d2);
        assert(is_shortest(adj, s, t, d2));
    }
    if d2 < d1 {
        let (s, t) = choose|s: usize, t: usize| #[trigger] is_shortest(adj, s, t, d1);
        assert(is_shortest(adj, s, t, d1));
    }
}

/// The diameter of a graph without edges is 0, whatever the number of its
/// nodes.
pub proof fn lemma_diameter_without_edges(adj: Seq<Seq<usize>>, d: nat)
    requires
        is_diameter(adj, d),
        forall|u: int| 0 <= u < adj.len() ==> (#[trigger] adj[u]).len() == 0,
    ensures
        d == 0,
{
    if d > 0 {
        let (s, t) = choose|s: usize, t: usize| #[trigger] is_shortest(adj, s, t, d);
        let p = choose|p: Seq<usize>| #[trigger] is_walk_between(adj, p, s, t, d);
        assert(step_follows_edge(adj, p, 0));
        assert(adj[p[0] as int].contains(p[1]));
        assert(adj[p[0] as int].len() == 0);
    }
}

/// Only nodes are reached.
pub proof fn lemma_reachable_is_node(adj: Seq<Seq<usize>>, s: usize, t: usize)
    requires
        reachable(adj, s, t),
    ensures
        s < adj.len(),
        t < adj.len(),
{
    let len = choose|len: nat| #[trigger] walk_exists(adj, s, t, len);
    let p = choose|p: Seq<usize>| #[trigger] is_walk_between(adj, p, s, t, len);
    if len > 0 {
        assert(step_follows_edge(adj, p, len - 1));
    }
}

/// A vector of `n` entries, none of them set.
fn unset(n: usize) -> (v: Vec<Option<usize>>)
    ensures
        v@ == Seq::new(n as nat, |i: int| None::<usize>),
{
    let mut v: Vec<Option<usize>> = Vec::new();
    let mut i: usize = 0;
    while i < n
        invariant
            i <= n,
            v@ == Seq::new(i as nat, |j: int| None::<usize>),
        decreases n - i,
    {
        v.push(None);
        i += 1;
        assert(v@ =~= Seq::new(i as nat, |j: int| None::<usize>));
    }
    v
}

impl ShortestPathTree {
    #[verifier::type_invariant]
    spec fn links_agree(&self) -> bool {
        self@.well_formed()
    }

    /// The node from which the search started. Its distance is 0, and every
    /// other discovered node lies one edge further from it than its parent.
    pub fn source(&self) -> (s: usize)
        ensures
            s == self@.source,
            self@.well_formed(),
    {
        proof {
            use_type_invariant(self);
        }
        self.source
    }

    /// The number of nodes of the graph that was searched.
    pub fn node_count(&self) -> (n: usize)
        ensures
            n == self@.parent.len(),
            n == self@.distance.len(),
    {
        proof {
            use_type_invariant(self);
        }
        self.parent.len()
    }

    /// The node through which `node` was first discovered; `None` for the
    /// root, for a node that the root does not reach, and for a number that
    /// is no node.
    pub fn parent_of(&self, node: usize) -> (p: Option<usize>)
        ensures
            p == if node < self@.parent.len() {
                self@.parent[node as int]
            } else {
                None
            },
    {
        if node < self.parent.len() {
            self.parent[node]
        } else {
            None
        }
    }

    /// The number of edges on a shortest walk from the root to `node`;
    /// `None` for a node that the root does not reach, and for a number that
    /// is no node.
    pub fn distance_to(&self, node: usize) -> (d: Option<usize>)
        ensures
            d == if node < self@.distance.len() {
                self@.distance[node as int]
            } else {
                None
            },
    {
        if node < self.distance.len() {
            self.distance[node]
        } else {
            None
        }
    }

    /// The discovered nodes, in the order in which the search met them.
    pub fn discovery_order(&self) -> (order: &Vec<usize>)
        ensures
            order@ == self@.order,
    {
        &self.order
    }

    /// The tree's path from the root to `target`, root first.
    ///
    /// Walks the parent links back from `target`. Where the walk does not
    /// end at the root, because the root does not reach `target` or `target`
    /// is no node, there is no path. A path begins at the root, ends at
    /// `target` and has one node more than `target` is edges away from the
    /// root.
    pub fn reconstruct_path(&self, target: usize) -> (path: Option<Vec<usize>>)
        ensures
            path is Some <==> target < self@.distance.len() && self@.distance[target as int] is Some,
            path matches Some(p) ==> {
                &&& p@ == self@.path_to(target)
                &&& p@.len() == self@.distance[target as int].unwrap() + 1
                &&& p@[0] == self@.source
                &&& p@[p@.len() - 1] == target
            },
    {
        proof {
            use_type_invariant(self);
        }
        if target >= self.distance.len() {
            return None;
        }
        let ghost t = self@;
        let ghost d = t.distance[target as int].unwrap() as nat;
        let mut back: Vec<usize> = Vec::new();
        back.push(target);
        let mut current = target;
        loop
            invariant_except_break
                t.distance[target as int] is Some ==> back@.len() <= d + 1,
            invariant
                t == self@,
                d == t.distance[target as int].unwrap(),
                t.well_formed(),
                target < t.parent.len(),
                back@.len() > 0,
                current == back@[back@.len() - 1],
                current < t.parent.len(),
                forall|i: int| 0 <= i < back@.len() ==> back@[i] == t.ancestor(target, i as nat),
                t.distance[target as int] is None ==> back@.len() == 1,
            ensures
                t.parent[current as int] is None,
                t.distance[target as int] is Some ==> back@.len() == d + 1,
            decreases
                    (if t.distance[target as int] is Some {
                        d + 1 - back@.len()
                    } else {
                        0
                    }),
        {
            proof {
                assert(t.link_ok(current as int));
                assert(t.link_ok(target as int));
                if t.distance[target as int] is Some {
                    lemma_ancestor_distance(t, target, (back@.len() - 1) as nat);
                }
            }
            match self.parent[current] {
                Some(p) => {
                    back.push(p);
                    current = p;
                },
                None => {
                    break ;
                },
            }
        }
        if current != self.source {
            proof {
                assert(t.link_ok(current as int));
                if t.distance[target as int] is Some {
                    lemma_ancestor_distance(t, target, d);
                    assert(t.link_ok(target as int));
                }
            }
            return None;
        }
        proof {
            assert(t.link_ok(target as int));
            if t.distance[target as int] is None {
                assert(false);
            }
        }
        let mut path: Vec<usize> = Vec::new();
        let mut i: usize = back.len();
        while i > 0
            invariant
                i <= back@.len(),
                back@.len() == d + 1,
                path@.len() == back@.len() - i,
                forall|j: int| 0 <= j < path@.len() ==> path@[j] == back@[back@.len() - 1 - j],
            decreases i,
        {
            i -= 1;
            path.push(back[i]);
        }
        proof {
            assert(path@ =~= t.path_to(target));
            lemma_path_shape(t, target);
        }
        Some(path)
    }
}

impl Graph {
    /// The breadth-first search tree from `source`.
    ///
    /// The search goes through the adjacency lists of the discovered nodes
    /// in the order of their discovery, and through each list from its first
    /// entry on. Every node that `source` reaches is discovered once, gets
    /// the node whose list it was found in as its parent, and a distance one
    /// greater than its parent's, which is the length of a shortest walk
    /// from `source`.
    pub fn shortest_path_tree(&self, source: usize) -> (tree: ShortestPathTree)
        requires
            source < self@.len(),
        ensures
            tree@ == breadth_first_tree(self@, source),
            tree@.source == source,
            tree@.distance[source as int] == Some(0usize),
            is_breadth_first(self@, tree@),
            distances_are_shortest(self@, tree@),
    {
        let n = self.node_count();
        let mut parent = unset(n);
        let mut distance = unset(n);
        distance.set(source, Some(0));
        let mut order: Vec<usize> = Vec::new();
        order.push(source);
        let ghost mut s: Search = initial(n as nat, source);
        proof {
            lemma_initial(self@, source);
            assert(order@ =~= s.tree.order);
        }
        let mut head: usize = 0;
        while head < order.len()
            invariant
                n == self@.len(),
                s.inv(self@),
                s.tree.source == source,
                s.tree.parent == parent@,
                s.tree.distance == distance@,
                s.tree.order == order@,
                s.head == head,
                s.k == 0,
            decreases n - head,
        {
            proof {
                lemma_order_bounded(self@, s);
                assert(s.listed(head as int));
            }
            let u = order[head];
            let list = self.neighbors(u);
            let mut k: usize = 0;
            while k < list.len()
                invariant
                    n == self@.len(),
                    s.inv(self@),
                    s.tree.source == source,
                    s.tree.parent == parent@,
                    s.tree.distance == distance@,
                    s.tree.order == order@,
                    s.head == head,
                    s.k == k,
                    head < order@.len(),
                    u == order@[head as int],
                    u < n,
                    list@ == self@[u as int],
                    k <= list@.len(),
                decreases list@.len() - k,
            {
                let v = list[k];
                match distance[v] {
                    None => {
                        proof {
                            lemma_discover(self@, s);
                        }
                        let du = match distance[u] {
                            Some(d) => d,
                            None => 0,
                        };
                        distance.set(v, Some(du + 1));
                        parent.set(v, Some(u));
                        order.push(v);
                        proof {
                            s = s.discover(v);
                        }
                    },
                    Some(_) => {
                        proof {
                            lemma_skip(self@, s);
                            s = s.skip();
                        }
                    },
                }
                k += 1;
            }
            proof {
                lemma_advance(self@, s);
                s = s.advance();
            }
            head += 1;
        }
        proof {
            lemma_finished(self@, s);
            lemma_is_the_breadth_first_tree(self@, s.tree);
        }
        ShortestPathTree { source, parent, distance, order }
    }

    /// A shortest path from `start` to `end`, `start` first: the one that
    /// the breadth-first search tree from `start` holds. There is none
    /// exactly where `start` does not reach `end`.
    pub fn bfs(&self, start: usize, end: usize) -> (path: Option<Vec<usize>>)
        requires
            start < self@.len(),
        ensures
            path is Some <==> reachable(self@, start, end),
            path matches Some(p) ==> {
                &&& p@ == breadth_first_tree(self@, start).path_to(end)
                &&& is_walk_between(self@, p@, start, end, distance(self@, start, end))
            },
    {
        let tree = self.shortest_path_tree(start);
        let path = tree.reconstruct_path(end);
        proof {
            if end < self@.len() {
                if tree@.distance[end as int] is Some {
                    lemma_path_is_shortest_walk(self@, tree@, end);
                    lemma_shortest_is_distance(
                        self@,
                        start,
                        end,
                        tree@.distance[end as int].unwrap() as nat,
                    );
                }
            } else if reachable(self@, start, end) {
                lemma_reachable_is_node(self@, start, end);
            }
        }
        path
    }

    /// The diameter: the greatest shortest distance from any node to any
    /// node that it reaches, found by one search from every node.
    ///
    /// This takes time in the order of the number of nodes times the size of
    /// the graph.
    pub fn graph_diameter(&self) -> (diameter: usize)
        ensures
            is_diameter(self@, diameter as nat),
    {
        let n = self.node_count();
        let mut max_distance: usize = 0;
        let mut start: usize = 0;
        while start < n
            invariant
                n == self@.len(),
                start <= n,
                forall|s: usize, t: usize, len: nat|
                    s < start && #[trigger] is_shortest(self@, s, t, len) ==> len <= max_distance,
                max_distance == 0 || exists|s: usize, t: usize| #[trigger]
                    is_shortest(self@, s, t, max_distance as nat),
            decreases n - start,
        {
            let tree = self.shortest_path_tree(start);
            let mut node: usize = 0;
            while node < n
                invariant
                    n == self@.len(),
                    start < n,
                    node <= n,
                    tree@.source == start,
                    tree@.distance.len() == n,
                    distances_are_shortest(self@, tree@),
                    forall|s: usize, t: usize, len: nat|
                        s < start && #[trigger] is_shortest(self@, s, t, len) ==> len
                            <= max_distance,
                    forall|t: usize, len: nat|
                        t < node && #[trigger] is_shortest(self@, start, t, len) ==> len
                            <= max_distance,
                    max_distance == 0 || exists|s: usize, t: usize| #[trigger]
                        is_shortest(self@, s, t, max_distance as nat),
                decreases n - node,
            {
                let found = tree.distance_to(node);
                proof {
                    assert forall|len: nat| #[trigger]
                        is_shortest(self@, start, node, len) implies found == Some(len as usize)
                        && len <= usize::MAX by {
                        lemma_shortest_is_distance(self@, start, node, len);
                        match tree@.distance[node as int] {
                            Some(d) => {
                                lemma_shortest_is_distance(self@, start, node, d as nat);
                            },
                            None => {},
                        }
                    }
                }
                match found {
                    Some(d) => {
                        if d > max_distance {
                            max_distance = d;
                        }
                    },
                    None => {},
                }
                node += 1;
            }
            proof {
                assert forall|s: usize, t: usize, len: nat|
                    s < start + 1 && #[trigger] is_shortest(self@, s, t, len) implies len
                    <= max_distance by {
                    if s == start {
                        lemma_shortest_is_distance(self@, s, t, len);
                        lemma_reachable_is_node(self@, s, t);
                    }
                }
            }
            start += 1;
        }
        proof {
            assert forall|s: usize, t: usize, len: nat| #[trigger]
                is_shortest(self@, s, t, len) implies len <= max_distance by {
                lemma_shortest_is_distance(self@, s, t, len);
                lemma_reachable_is_node(self@, s, t);
            }
        }
        max_distance
    }
}

} // verus!
