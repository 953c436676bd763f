//! Walks, reachability and shortest distances in an adjacency sequence.

use vstd::prelude::*;

verus! {

/// Every entry of every adjacency list names a node of the graph.
pub open spec fn closed_adjacency(adj: Seq<Seq<usize>>) -> bool {
    forall|u: int, k: int|
        0 <= u < adj.len() && 0 <= k < adj[u].len() ==> (#[trigger] adj[u][k]) < adj.len()
}

/// There is a directed edge from `u` to `v`, and both are nodes.
pub open spec fn has_edge(adj: Seq<Seq<usize>>, u: usize, v: usize) -> bool {
    &&& u < adj.len()
    &&& v < adj.len()
    &&& adj[u as int].contains(v)
}

/// Step `i` of `p` follows an edge of the graph.
pub open spec fn step_follows_edge(adj: Seq<Seq<usize>>, p: Seq<usize>, i: int) -> bool {
    has_edge(adj, p[i], p[i + 1])
}

/// `p` is a non-empty sequence of nodes in which each node is a successor of
/// the one before it.
pub open spec fn is_walk(adj: Seq<Seq<usize>>, p: Seq<usize>) -> bool {
    &&& p.len() > 0
    &&& p[0] < adj.len()
    &&& forall|i: int| 0 <= i < p.len() - 1 ==> #[trigger] step_follows_edge(adj, p, i)
}

/// `p` is a walk from `s` to `t` with `len` edges.
pub open spec fn is_walk_between(
    adj: Seq<Seq<usize>>,
    p: Seq<usize>,
    s: usize,
    t: usize,
    len: nat,
) -> bool {
    &&& is_walk(adj, p)
    &&& p.len() == len + 1
    &&& p[0] == s
    &&& p[len as int] == t
}

/// Some walk from `s` to `t` has exactly `len` edges.
pub open spec fn walk_exists(adj: Seq<Seq<usize>>, s: usize, t: usize, len: nat) -> bool {
    exists|p: Seq<usize>| #[trigger] is_walk_between(adj, p, s, t, len)
}

/// `t` can be reached from `s` along edges of the graph.
pub open spec fn reachable(adj: Seq<Seq<usize>>, s: usize, t: usize) -> bool {
    exists|len: nat| #[trigger] walk_exists(adj, s, t, len)
}

/// `d` is the least number of edges of any walk from `s` to `t`.
pub open spec fn is_shortest(adj: Seq<Seq<usize>>, s: usize, t: usize, d: nat) -> bool {
    &&& walk_exists(adj, s, t, d)
    &&& forall|len: nat| len < d ==> !#[trigger] walk_exists(adj, s, t, len)
}

/// The number of edges on a shortest walk from `s` to `t`; meaningful only
/// where `t` is reachable from `s`.
pub open spec fn distance(adj: Seq<Seq<usize>>, s: usize, t: usize) -> nat {
    choose|d: nat| is_shortest(adj, s, t, d)
}

/// A node reaches itself by the walk without edges.
pub proof fn lemma_trivial_walk(adj: Seq<Seq<usize>>, s: usize)
    requires
        s < adj.len(),
    ensures
        is_shortest(adj, s, s, 0),
        reachable(adj, s, s),
        distance(adj, s, s) == 0,
{
    let p = seq![s];
    assert(is_walk_between(adj, p, s, s, 0));
    assert(walk_exists(adj, s, s, 0));
    lemma_shortest_is_distance(adj, s, s, 0);
}

/// A shortest length is unique: it is the distance.
pub proof fn lemma_shortest_is_distance(adj: Seq<Seq<usize>>, s: usize, t: usize, d: nat)
    requires
        is_shortest(adj, s, t, d),
    ensures
        reachable(adj, s, t),
        distance(adj, s, t) == d,
{
    let c = distance(adj, s, t);
    assert(is_shortest(adj, s, t, c));
    if c < d {
        assert(!walk_exists(adj, s, t, c));
    }
    if d < c {
        assert(!walk_exists(adj, s, t, d));
    }
}

/// Extending a walk by one edge gives a walk that is one edge longer.
pub proof fn lemma_extend_walk(
    adj: Seq<Seq<usize>>,
    s: usize,
    u: usize,
    v: usize,
    len: nat,
)
    requires
        walk_exists(adj, s, u, len),
        has_edge(adj, u, v),
    ensures
        walk_exists(adj, s, v, len + 1),
{
    let p = choose|p: Seq<usize>| is_walk_between(adj, p, s, u, len);
    let q = p.push(v);
    assert forall|i: int| 0 <= i < q.len() - 1 implies #[trigger] step_follows_edge(adj, q, i) by {
        if i < p.len() - 1 {
            assert(step_follows_edge(adj, p, i));
        }
    }
    assert(is_walk_between(adj, q, s, v, len + 1));
}

/// A walk with at least one edge ends with an edge out of the end of a walk
/// that is one edge shorter.
pub proof fn lemma_shorten_walk(adj: Seq<Seq<usize>>, s: usize, v: usize, len: nat) -> (u: usize)
    requires
        walk_exists(adj, s, v, len),
        len > 0,
    ensures
        walk_exists(adj, s, u, (len - 1) as nat),
        has_edge(adj, u, v),
{
    let p = choose|p: Seq<usize>| is_walk_between(adj, p, s, v, len);
    let q = p.drop_last();
    let u = p[len - 1];
    assert(step_follows_edge(adj, p, len - 1));
    assert forall|i: int| 0 <= i < q.len() - 1 implies #[trigger] step_follows_edge(adj, q, i) by {
        assert(step_follows_edge(adj, p, i));
    }
    assert(is_walk_between(adj, q, s, u, (len - 1) as nat));
    u
}

} // verus!
