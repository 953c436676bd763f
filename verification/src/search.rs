//! The state of a breadth-first search in progress, and the steps that keep
//! it sound.

use vstd::prelude::*;
use crate::discovery::lemma_first_occurrences_push;
use crate::tree::{
    distances_are_shortest, first_occurrences, is_breadth_first, scanned, TreeView,
};
use crate::walk::{
    closed_adjacency, has_edge, is_shortest, lemma_extend_walk, lemma_shorten_walk,
    lemma_trivial_walk, reachable, walk_exists,
};

verus! {

/// A search that has discovered `tree.order`, has gone through the whole
/// adjacency lists of the first `head` discovered nodes and through the
/// first `k` entries of the next one. `pos` gives each discovered node its
/// place in `tree.order`.
pub struct Search {
    pub tree: TreeView,
    pub pos: Seq<int>,
    pub head: int,
    pub k: int,
}

/// The number of nodes that have a distance.
pub open spec fn count_discovered(distance: Seq<Option<usize>>) -> nat
    decreases distance.len(),
{
    if distance.len() == 0 {
        0
    } else {
        count_discovered(distance.drop_last()) + if distance.last() is Some {
            1nat
        } else {
            0nat
        }
    }
}

impl Search {
    /// The distance of the node at place `i` of the discovery order.
    pub open spec fn dist_at(self, i: int) -> int {
        self.tree.distance[self.tree.order[i] as int].unwrap() as int
    }

    /// Entry `i` of the discovery order is a discovered node that knows its
    /// place, no further from the root than `i` edges and at most one edge
    /// further than the node whose list is being read.
    pub open spec fn listed(self, i: int) -> bool {
        let v = self.tree.order[i];
        &&& v < self.tree.parent.len()
        &&& self.tree.distance[v as int] is Some
        &&& self.pos[v as int] == i
        &&& self.dist_at(i) <= i
        &&& self.head < self.tree.order.len() ==> self.dist_at(i) <= self.dist_at(self.head) + 1
    }

    /// A discovered node stands in the discovery order at its place, and its
    /// parent is a node with an edge to it whose list has been read or is
    /// being read.
    pub open spec fn placed(self, adj: Seq<Seq<usize>>, v: int) -> bool {
        &&& self.tree.distance[v] is Some ==> {
            &&& 0 <= self.pos[v] < self.tree.order.len()
            &&& self.tree.order[self.pos[v]] == v
        }
        &&& self.tree.parent[v] matches Some(p) ==> {
            &&& adj[p as int].contains(v as usize)
            &&& self.pos[p as int] <= self.head
        }
    }

    /// Entry `kk` of the list of `order[j]` lies behind the search.
    pub open spec fn behind(self, j: int, kk: int) -> bool {
        j < self.head || (j == self.head && kk < self.k)
    }

    /// The node at entry `kk` of the list of `order[j]` is the root, or has a
    /// parent that was discovered no later than `order[j]`.
    pub open spec fn relaxed(self, adj: Seq<Seq<usize>>, j: int, kk: int) -> bool {
        let v = adj[self.tree.order[j] as int][kk];
        v == self.tree.source || {
            &&& self.tree.parent[v as int] is Some
            &&& self.pos[self.tree.parent[v as int].unwrap() as int] <= j
        }
    }

    /// Everything that holds between two steps of the search.
    pub open spec fn inv(self, adj: Seq<Seq<usize>>) -> bool {
        let t = self.tree;
        &&& closed_adjacency(adj)
        &&& adj.len() <= usize::MAX
        &&& t.well_formed()
        &&& t.parent.len() == adj.len()
        &&& self.pos.len() == adj.len()
        &&& t.order.len() > 0
        &&& t.order[0] == t.source
        &&& t.order.len() == count_discovered(t.distance)
        &&& 0 <= self.head <= t.order.len()
        &&& 0 <= self.k
        &&& self.head < t.order.len() ==> self.k <= adj[t.order[self.head] as int].len()
        &&& self.head == t.order.len() ==> self.k == 0
        &&& forall|i: int| 0 <= i < t.order.len() ==> #[trigger] self.listed(i)
        &&& forall|v: int| 0 <= v < adj.len() ==> #[trigger] self.placed(adj, v)
        &&& forall|i: int, j: int|
            0 <= i <= j < t.order.len() ==> #[trigger] self.dist_at(i) <= #[trigger] self.dist_at(j)
        &&& forall|j: int, kk: int|
            0 <= j < t.order.len() && 0 <= kk < adj[t.order[j] as int].len() && self.behind(j, kk)
                ==> #[trigger] self.relaxed(adj, j, kk)
        &&& t.order == first_occurrences(scanned(adj, t.order, self.head as nat, self.k as nat))
    }

    /// The node whose list is being read.
    pub open spec fn current(self) -> usize {
        self.tree.order[self.head]
    }

    /// The entry of the current list that the search looks at next.
    pub open spec fn next_target(self, adj: Seq<Seq<usize>>) -> usize {
        adj[self.current() as int][self.k]
    }

    /// The search has not yet come to the end of the current list.
    pub open spec fn in_list(self, adj: Seq<Seq<usize>>) -> bool {
        &&& self.head < self.tree.order.len()
        &&& self.k < adj[self.current() as int].len()
    }

    /// The state after the search has passed an entry that was discovered
    /// before.
    pub open spec fn skip(self) -> Search {
        Search { k: self.k + 1, ..self }
    }

    /// The state after the search has discovered `v` through the current
    /// node.
    pub open spec fn discover(self, v: usize) -> Search {
        let u = self.current();
        let d = (self.tree.distance[u as int].unwrap() + 1) as usize;
        Search {
            tree: TreeView {
                source: self.tree.source,
                parent: self.tree.parent.update(v as int, Some(u)),
                distance: self.tree.distance.update(v as int, Some(d)),
                order: self.tree.order.push(v),
            },
            pos: self.pos.update(v as int, self.tree.order.len() as int),
            head: self.head,
            k: self.k + 1,
        }
    }

    /// The state after the search has come to the end of the current list.
    pub open spec fn advance(self) -> Search {
        Search { head: self.head + 1, k: 0, ..self }
    }
}

/// The state in which a search from `source` over `n` nodes begins.
pub open spec fn initial(n: nat, source: usize) -> Search {
    Search {
        tree: TreeView {
            source,
            parent: Seq::new(n, |v: int| None::<usize>),
            distance: Seq::new(n, |v: int| None::<usize>).update(source as int, Some(0usize)),
            order: seq![source],
        },
        pos: Seq::new(n, |v: int| 0int),
        head: 0,
        k: 0,
    }
}

proof fn lemma_count_bounded(distance: Seq<Option<usize>>)
    ensures
        count_discovered(distance) <= distance.len(),
    decreases distance.len(),
{
    if distance.len() > 0 {
        lemma_count_bounded(distance.drop_last());
    }
}

proof fn lemma_count_none(n: nat)
    ensures
        count_discovered(Seq::new(n, |v: int| None::<usize>)) == 0,
    decreases n,
{
    let s = Seq::new(n, |v: int| None::<usize>);
    if n > 0 {
        assert(s.drop_last() =~= Seq::new((n - 1) as nat, |v: int| None::<usize>));
        lemma_count_none((n - 1) as nat);
    }
}

proof fn lemma_count_update(distance: Seq<Option<usize>>, v: int, d: usize)
    requires
        0 <= v < distance.len(),
        distance[v] is None,
    ensures
        count_discovered(distance.update(v, Some(d))) == count_discovered(distance) + 1,
    decreases distance.len(),
{
    let after = distance.update(v, Some(d));
    if v == distance.len() - 1 {
        assert(after.drop_last() =~= distance.drop_last());
    } else {
        assert(after.drop_last() =~= distance.drop_last().update(v, Some(d)));
        lemma_count_update(distance.drop_last(), v, d);
    }
}

/// What lies behind a search does not change when a node is added to the
/// discovery order.
proof fn lemma_scanned_stable(adj: Seq<Seq<usize>>, order: Seq<usize>, v: usize, j: nat, k: nat)
    requires
        j < order.len(),
    ensures
        scanned(adj, order.push(v), j, k) == scanned(adj, order, j, k),
    decreases j, k,
{
    if k > 0 {
        lemma_scanned_stable(adj, order, v, j, (k - 1) as nat);
    } else if j > 0 {
        lemma_scanned_stable(adj, order, v, (j - 1) as nat, adj[order[j - 1] as int].len());
    }
}

/// A search never discovers more nodes than the graph has.
pub proof fn lemma_order_bounded(adj: Seq<Seq<usize>>, s: Search)
    requires
        s.inv(adj),
    ensures
        s.tree.order.len() <= adj.len(),
{
    lemma_count_bounded(s.tree.distance);
}

/// A search starts in a sound state.
pub proof fn lemma_initial(adj: Seq<Seq<usize>>, source: usize)
    requires
        closed_adjacency(adj),
        adj.len() <= usize::MAX,
        source < adj.len(),
    ensures
        initial(adj.len(), source).inv(adj),
{
    let s = initial(adj.len(), source);
    let t = s.tree;
    let none = Seq::new(adj.len(), |v: int| None::<usize>);
    lemma_count_none(adj.len());
    lemma_count_update(none, source as int, 0usize);
    assert forall|v: int| 0 <= v < t.parent.len() implies #[trigger] t.link_ok(v) by {}
    assert forall|i: int| 0 <= i < t.order.len() implies #[trigger] s.listed(i) by {}
    assert forall|v: int| 0 <= v < adj.len() implies #[trigger] s.placed(adj, v) by {}
    assert(scanned(adj, t.order, 0, 0) =~= seq![source]);
    lemma_first_occurrences_push(Seq::<usize>::empty(), source);
    assert(Seq::<usize>::empty().push(source) =~= seq![source]);
    assert(first_occurrences(Seq::<usize>::empty()) =~= Seq::<usize>::empty());
    assert(t.order =~= first_occurrences(scanned(adj, t.order, 0, 0)));
}

/// Passing an entry that was discovered before keeps the state sound.
pub proof fn lemma_skip(adj: Seq<Seq<usize>>, s: Search)
    requires
        s.inv(adj),
        s.in_list(adj),
        s.tree.distance[s.next_target(adj) as int] is Some,
    ensures
        s.skip().inv(adj),
{
    let t = s.tree;
    let n = s.skip();
    let v = s.next_target(adj);
    assert(s.listed(s.head));
    assert(v < adj.len());
    assert(s.placed(adj, v as int));
    assert(t.link_ok(v as int));
    assert forall|i: int| 0 <= i < t.order.len() implies #[trigger] n.listed(i) by {
        assert(s.listed(i));
    }
    assert forall|w: int| 0 <= w < adj.len() implies #[trigger] n.placed(adj, w) by {
        assert(s.placed(adj, w));
    }
    assert forall|i: int, j: int| 0 <= i <= j < t.order.len() implies #[trigger] n.dist_at(i)
        <= #[trigger] n.dist_at(j) by {
        assert(s.dist_at(i) <= s.dist_at(j));
    }
    assert forall|j: int, kk: int|
        0 <= j < t.order.len() && 0 <= kk < adj[t.order[j] as int].len() && n.behind(
            j,
            kk,
        ) implies #[trigger] n.relaxed(adj, j, kk) by {
        if s.behind(j, kk) {
            assert(s.relaxed(adj, j, kk));
        }
    }
    let before = scanned(adj, t.order, s.head as nat, s.k as nat);
    assert(scanned(adj, t.order, n.head as nat, n.k as nat) == before.push(v));
    lemma_first_occurrences_push(before, v);
    assert(t.order.contains(v));
}

/// Discovering a new node through the current one keeps the state sound.
pub proof fn lemma_discover(adj: Seq<Seq<usize>>, s: Search)
    requires
        s.inv(adj),
        s.in_list(adj),
        s.tree.distance[s.next_target(adj) as int] is None,
    ensures
        s.discover(s.next_target(adj)).inv(adj),
        s.tree.order.len() < adj.len(),
        s.tree.distance[s.current() as int] is Some,
        s.tree.distance[s.current() as int].unwrap() < s.tree.order.len(),
{
    let t = s.tree;
    let v = s.next_target(adj);
    let u = s.current();
    let n = s.discover(v);
    let m = n.tree;
    let len = t.order.len() as int;
    assert(s.listed(s.head));
    assert(v < adj.len());
    assert(u < adj.len());
    assert(u != v);
    assert(v != t.source);
    assert(t.link_ok(v as int));
    assert(t.parent[v as int] is None);
    lemma_count_update(t.distance, v as int, (t.distance[u as int].unwrap() + 1) as usize);
    lemma_count_bounded(m.distance);
    assert(!t.order.contains(v)) by {
        if t.order.contains(v) {
            let i = choose|i: int| 0 <= i < t.order.len() && t.order[i] == v;
            assert(s.listed(i));
        }
    }
    assert forall|w: int| 0 <= w < m.parent.len() implies #[trigger] m.link_ok(w) by {
        assert(t.link_ok(w));
    }
    assert forall|i: int| 0 <= i < m.order.len() implies #[trigger] n.listed(i) by {
        if i < len {
            assert(s.listed(i));
            assert(n.dist_at(i) == s.dist_at(i));
        }
        assert(n.dist_at(s.head) == s.dist_at(s.head));
    }
    assert forall|w: int| 0 <= w < adj.len() implies #[trigger] n.placed(adj, w) by {
        assert(s.placed(adj, w));
        assert(t.link_ok(w));
    }
    assert forall|i: int, j: int| 0 <= i <= j < m.order.len() implies #[trigger] n.dist_at(i)
        <= #[trigger] n.dist_at(j) by {
        if j < len {
            assert(s.listed(i));
            assert(s.listed(j));
            assert(s.dist_at(i) <= s.dist_at(j));
        } else if i < len {
            assert(s.listed(i));
            assert(n.dist_at(i) == s.dist_at(i));
        }
    }
    assert forall|j: int, kk: int|
        0 <= j < m.order.len() && 0 <= kk < adj[m.order[j] as int].len() && n.behind(
            j,
            kk,
        ) implies #[trigger] n.relaxed(adj, j, kk) by {
        if s.behind(j, kk) {
            assert(s.listed(j));
            assert(s.relaxed(adj, j, kk));
            let w = adj[t.order[j] as int][kk];
            if w != t.source {
                assert(t.link_ok(w as int));
            }
        }
    }
    let before = scanned(adj, t.order, s.head as nat, s.k as nat);
    lemma_scanned_stable(adj, t.order, v, n.head as nat, n.k as nat);
    assert(scanned(adj, t.order, n.head as nat, n.k as nat) == before.push(v));
    lemma_first_occurrences_push(before, v);
}

/// Going on to the next discovered node at the end of a list keeps the
/// state sound.
pub proof fn lemma_advance(adj: Seq<Seq<usize>>, s: Search)
    requires
        s.inv(adj),
        s.head < s.tree.order.len(),
        s.k == adj[s.current() as int].len(),
    ensures
        s.advance().inv(adj),
{
    let t = s.tree;
    let n = s.advance();
    assert forall|i: int| 0 <= i < t.order.len() implies #[trigger] n.listed(i) by {
        assert(s.listed(i));
        if n.head < t.order.len() {
            assert(s.dist_at(s.head) <= s.dist_at(n.head));
        }
    }
    assert forall|w: int| 0 <= w < adj.len() implies #[trigger] n.placed(adj, w) by {
        assert(s.placed(adj, w));
    }
    assert forall|i: int, j: int| 0 <= i <= j < t.order.len() implies #[trigger] n.dist_at(i)
        <= #[trigger] n.dist_at(j) by {
        assert(s.dist_at(i) <= s.dist_at(j));
    }
    assert forall|j: int, kk: int|
        0 <= j < t.order.len() && 0 <= kk < adj[t.order[j] as int].len() && n.behind(
            j,
            kk,
        ) implies #[trigger] n.relaxed(adj, j, kk) by {
        assert(s.behind(j, kk));
        assert(s.relaxed(adj, j, kk));
    }
    assert(scanned(adj, t.order, n.head as nat, 0) == scanned(
        adj,
        t.order,
        s.head as nat,
        s.k as nat,
    ));
}

/// At the end of a search, an edge leads from a discovered node to a
/// discovered node that is at most one edge further from the root.
proof fn lemma_edge_relaxed(adj: Seq<Seq<usize>>, s: Search, u: usize, v: usize)
    requires
        s.inv(adj),
        s.head == s.tree.order.len(),
        has_edge(adj, u, v),
        s.tree.distance[u as int] is Some,
    ensures
        s.tree.distance[v as int] is Some,
        s.tree.distance[v as int].unwrap() <= s.tree.distance[u as int].unwrap() + 1,
{
    let t = s.tree;
    let kk = choose|kk: int| 0 <= kk < adj[u as int].len() && adj[u as int][kk] == v;
    assert(s.placed(adj, u as int));
    let j = s.pos[u as int];
    assert(s.behind(j, kk));
    assert(s.relaxed(adj, j, kk));
    if v != t.source {
        let p = t.parent[v as int].unwrap();
        assert(t.link_ok(v as int));
        assert(s.placed(adj, p as int));
        let i = s.pos[p as int];
        assert(s.dist_at(i) <= s.dist_at(j));
    }
}

/// At the end of a search, the end of every walk from the root is
/// discovered, and no further from the root than the walk is long.
proof fn lemma_no_shorter_walk(adj: Seq<Seq<usize>>, s: Search, v: usize, len: nat)
    requires
        s.inv(adj),
        s.head == s.tree.order.len(),
        walk_exists(adj, s.tree.source, v, len),
    ensures
        v < adj.len(),
        s.tree.distance[v as int] is Some,
        s.tree.distance[v as int].unwrap() <= len,
    decreases len,
{
    if len == 0 {
        assert(v == s.tree.source);
    } else {
        let u = lemma_shorten_walk(adj, s.tree.source, v, len);
        lemma_no_shorter_walk(adj, s, u, (len - 1) as nat);
        lemma_edge_relaxed(adj, s, u, v);
    }
}

/// A discovered node is the end of a walk from the root that has as many
/// edges as the node's distance says.
proof fn lemma_walk_of_distance(adj: Seq<Seq<usize>>, s: Search, v: usize, d: nat)
    requires
        s.inv(adj),
        v < adj.len(),
        s.tree.distance[v as int] == Some(d as usize),
        d <= usize::MAX,
    ensures
        walk_exists(adj, s.tree.source, v, d),
    decreases d,
{
    let t = s.tree;
    assert(t.link_ok(v as int));
    if v == t.source {
        lemma_trivial_walk(adj, t.source);
    } else {
        let p = t.parent[v as int].unwrap();
        assert(s.placed(adj, v as int));
        lemma_walk_of_distance(adj, s, p, (d - 1) as nat);
        lemma_extend_walk(adj, t.source, p, v, (d - 1) as nat);
    }
}

/// A search that has read every list of every discovered node has built the
/// breadth-first tree, and its distances are the shortest ones.
pub proof fn lemma_finished(adj: Seq<Seq<usize>>, s: Search)
    requires
        s.inv(adj),
        s.head == s.tree.order.len(),
    ensures
        is_breadth_first(adj, s.tree),
        distances_are_shortest(adj, s.tree),
{
    let t = s.tree;
    assert forall|i: int| 0 <= i < t.order.len() implies (#[trigger] t.order[i]) < adj.len() by {
        assert(s.listed(i));
    }
    assert forall|v: int| 0 <= v < adj.len() implies ((#[trigger] t.distance[v]) is Some
        <==> t.order.contains(v as usize)) by {
        assert(s.placed(adj, v));
        if t.order.contains(v as usize) {
            let i = choose|i: int| 0 <= i < t.order.len() && t.order[i] == v as usize;
            assert(s.listed(i));
        }
    }
    assert forall|v: int| 0 <= v < adj.len() implies #[trigger] t.parent_is_first_discoverer(
        adj,
        v,
    ) by {
        if let Some(p) = t.parent[v] {
            assert(t.link_ok(v));
            assert(s.placed(adj, v));
            assert(s.placed(adj, p as int));
            let at = t.order.index_of(p);
            assert(s.listed(at));
            assert(at == s.pos[p as int]);
            assert forall|j: int| 0 <= j < at implies !(#[trigger] adj[t.order[j] as int]).contains(
                v as usize,
            ) by {
                if adj[t.order[j] as int].contains(v as usize) {
                    let kk = choose|kk: int|
                        0 <= kk < adj[t.order[j] as int].len() && adj[t.order[j] as int][kk]
                            == v as usize;
                    assert(s.behind(j, kk));
                    assert(s.relaxed(adj, j, kk));
                }
            }
        }
    }
    assert forall|v: int| 0 <= v < adj.len() implies match #[trigger] t.distance[v] {
        Some(d) => is_shortest(adj, t.source, v as usize, d as nat),
        None => !reachable(adj, t.source, v as usize),
    } by {
        match t.distance[v] {
            Some(d) => {
                lemma_walk_of_distance(adj, s, v as usize, d as nat);
                assert forall|len: nat| len < d implies !#[trigger] walk_exists(
                    adj,
                    t.source,
                    v as usize,
                    len,
                ) by {
                    if walk_exists(adj, t.source, v as usize, len) {
                        lemma_no_shorter_walk(adj, s, v as usize, len);
                    }
                }
            },
            None => {
                if reachable(adj, t.source, v as usize) {
                    let target = v as usize;
                    let len = choose|len: nat| #[trigger] walk_exists(adj, t.source, target, len);
                    lemma_no_shorter_walk(adj, s, v as usize, len);
                }
            },
        }
    }
}

} // verus!
