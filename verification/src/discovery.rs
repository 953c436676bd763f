//! The discovery order determines itself: a graph has exactly one
//! breadth-first tree from each of its nodes.

use vstd::prelude::*;
use vstd::seq_lib::lemma_seq_contains_after_push;
use crate::tree::{first_occurrences, is_breadth_first, scanned, TreeView};

verus! {

/// `front` is the beginning of `whole`.
pub open spec fn begins(whole: Seq<usize>, front: Seq<usize>) -> bool {
    &&& front.len() <= whole.len()
    &&& forall|i: int| 0 <= i < front.len() ==> #[trigger] front[i] == whole[i]
}

/// Place `(j, k)` of a search lies at or before place `(j2, k2)`.
pub open spec fn at_or_before(j: nat, k: nat, j2: nat, k2: nat) -> bool {
    j < j2 || (j == j2 && k <= k2)
}

/// One more entry adds itself to the first occurrences exactly if it is
/// new.
pub proof fn lemma_first_occurrences_push(s: Seq<usize>, v: usize)
    ensures
        first_occurrences(s.push(v)) == if first_occurrences(s).contains(v) {
            first_occurrences(s)
        } else {
            first_occurrences(s).push(v)
        },
{
    assert(s.push(v).drop_last() =~= s);
}

/// The first occurrences hold the same nodes as the sequence.
pub proof fn lemma_first_occurrences_contains(s: Seq<usize>, x: usize)
    ensures
        first_occurrences(s).contains(x) <==> s.contains(x),
    decreases s.len(),
{
    if s.len() > 0 {
        let front = s.drop_last();
        let rest = first_occurrences(front);
        lemma_first_occurrences_contains(front, x);
        lemma_first_occurrences_contains(front, s.last());
        lemma_seq_contains_after_push(rest, s.last(), x);
        lemma_seq_contains_after_push(front, s.last(), x);
        assert(front.push(s.last()) =~= s);
    }
}

/// No node stands twice among the first occurrences.
pub proof fn lemma_first_occurrences_distinct(s: Seq<usize>)
    ensures
        first_occurrences(s).no_duplicates(),
    decreases s.len(),
{
    if s.len() > 0 {
        lemma_first_occurrences_distinct(s.drop_last());
    }
}

/// As a search goes on, the first occurrences of what lies behind it only
/// grow at their end.
pub proof fn lemma_scan_grows(
    adj: Seq<Seq<usize>>,
    order: Seq<usize>,
    j: nat,
    k: nat,
    j2: nat,
    k2: nat,
)
    requires
        at_or_before(j, k, j2, k2),
        j < j2 ==> k <= adj[order[j as int] as int].len(),
    ensures
        begins(first_occurrences(scanned(adj, order, j2, k2)), first_occurrences(scanned(adj, order, j, k))),
    decreases j2, k2,
{
    if j == j2 && k == k2 {
    } else if k2 > 0 {
        lemma_scan_grows(adj, order, j, k, j2, (k2 - 1) as nat);
        lemma_first_occurrences_push(
            scanned(adj, order, j2, (k2 - 1) as nat),
            adj[order[j2 as int] as int][k2 - 1],
        );
    } else {
        lemma_scan_grows(adj, order, j, k, (j2 - 1) as nat, adj[order[j2 - 1] as int].len());
    }
}

/// What lies behind a search is the root and the entries of the lists that
/// it has gone through.
pub proof fn lemma_scan_entries(adj: Seq<Seq<usize>>, order: Seq<usize>, j: nat, k: nat, x: usize)
    requires
        scanned(adj, order, j, k).contains(x),
        k <= adj[order[j as int] as int].len(),
    ensures
        x == order[0] || exists|j0: int, k0: int|
            0 <= j0 <= j && 0 <= k0 < adj[order[j0] as int].len() && (j0 < j || k0 < k)
                && #[trigger] adj[order[j0] as int][k0] == x,
    decreases j, k,
{
    if k > 0 {
        let front = scanned(adj, order, j, (k - 1) as nat);
        let last = adj[order[j as int] as int][k - 1];
        lemma_seq_contains_after_push(front, last, x);
        if front.contains(x) {
            lemma_scan_entries(adj, order, j, (k - 1) as nat, x);
        } else {
            assert(adj[order[j as int] as int][k - 1] == x);
        }
    } else if j > 0 {
        lemma_scan_entries(adj, order, (j - 1) as nat, adj[order[j - 1] as int].len(), x);
    } else {
        assert(scanned(adj, order, 0, 0)[0] == order[0]);
    }
}

/// Every entry of a list that a search has gone through lies behind it.
pub proof fn lemma_scan_holds(
    adj: Seq<Seq<usize>>,
    order: Seq<usize>,
    j: nat,
    k: nat,
    j0: int,
    k0: int,
)
    requires
        0 <= j0 <= j,
        0 <= k0 < adj[order[j0] as int].len(),
        j0 < j || k0 < k,
    ensures
        scanned(adj, order, j, k).contains(adj[order[j0] as int][k0]),
    decreases j, k,
{
    let x = adj[order[j0] as int][k0];
    if k > 0 {
        let front = scanned(adj, order, j, (k - 1) as nat);
        let last = adj[order[j as int] as int][k - 1];
        lemma_seq_contains_after_push(front, last, x);
        if !(j0 == j && k0 == k - 1) {
            lemma_scan_holds(adj, order, j, (k - 1) as nat, j0, k0);
        }
    } else {
        lemma_scan_holds(adj, order, (j - 1) as nat, adj[order[j - 1] as int].len(), j0, k0);
    }
}

/// What lies behind a search depends only on the nodes whose lists it has
/// begun.
pub proof fn lemma_scan_agrees(
    adj: Seq<Seq<usize>>,
    first: Seq<usize>,
    second: Seq<usize>,
    j: nat,
    k: nat,
)
    requires
        first[0] == second[0],
        forall|i: int| 0 <= i < j ==> first[i] == second[i],
        k > 0 ==> first[j as int] == second[j as int],
    ensures
        scanned(adj, first, j, k) == scanned(adj, second, j, k),
    decreases j, k,
{
    if k > 0 {
        lemma_scan_agrees(adj, first, second, j, (k - 1) as nat);
    } else if j > 0 {
        lemma_scan_agrees(adj, first, second, (j - 1) as nat, adj[first[j - 1] as int].len());
    }
}

/// In a breadth-first tree, what lies behind the search when it begins the
/// list of a node is the beginning of the discovery order.
pub proof fn lemma_behind_begins_order(adj: Seq<Seq<usize>>, t: TreeView, j: nat)
    requires
        is_breadth_first(adj, t),
        j <= t.order.len(),
    ensures
        begins(t.order, first_occurrences(scanned(adj, t.order, j, 0))),
{
    lemma_scan_grows(adj, t.order, j, 0, t.order.len(), 0);
}

/// The discovery order of a breadth-first tree lists no node twice.
pub proof fn lemma_order_is_distinct(adj: Seq<Seq<usize>>, t: TreeView)
    requires
        is_breadth_first(adj, t),
    ensures
        t.order.no_duplicates(),
{
    lemma_first_occurrences_distinct(scanned(adj, t.order, t.order.len(), 0));
}

/// In a breadth-first tree, a node has been discovered when the search
/// begins its list, and its parent stands before it in the discovery
/// order.
pub proof fn lemma_discovered_before_scanned(adj: Seq<Seq<usize>>, t: TreeView, i: int)
    requires
        is_breadth_first(adj, t),
        0 <= i < t.order.len(),
    ensures
        first_occurrences(scanned(adj, t.order, i as nat, 0)).len() > i,
        i > 0 ==> {
            &&& t.parent[t.order[i] as int] is Some
            &&& t.order.contains(t.parent[t.order[i] as int].unwrap())
            &&& t.order.index_of(t.parent[t.order[i] as int].unwrap()) < i
        },
    decreases t.distance[t.order[i] as int].unwrap(),
{
    let o = t.order;
    let v = o[i];
    lemma_order_is_distinct(adj, t);
    assert(o.contains(v));
    assert(t.distance[v as int] is Some);
    if i == 0 {
        lemma_first_occurrences_push(Seq::<usize>::empty(), o[0]);
        assert(Seq::<usize>::empty().push(o[0]) =~= seq![o[0]]);
        assert(scanned(adj, o, 0, 0) =~= seq![o[0]]);
    } else {
        assert(v != t.source);
        assert(t.link_ok(v as int));
        assert(t.parent_is_first_discoverer(adj, v as int));
        let p = t.parent[v as int].unwrap();
        let at = o.index_of(p);
        assert(0 <= at < o.len() && o[at] == p);
        lemma_discovered_before_scanned(adj, t, at);
        let before = first_occurrences(scanned(adj, o, at as nat, 0));
        lemma_behind_begins_order(adj, t, at as nat);
        assert(!scanned(adj, o, at as nat, 0).contains(v)) by {
            if scanned(adj, o, at as nat, 0).contains(v) {
                lemma_scan_entries(adj, o, at as nat, 0, v);
                let (j0, k0) = choose|j0: int, k0: int|
                    0 <= j0 <= at && 0 <= k0 < adj[o[j0] as int].len() && (j0 < at || k0 < 0)
                        && #[trigger] adj[o[j0] as int][k0] == v;
                assert(adj[o[j0] as int].contains(v));
            }
        }
        lemma_first_occurrences_contains(scanned(adj, o, at as nat, 0), v);
        if before.len() > i {
            assert(before[i] == o[i]);
            assert(before.contains(v));
        }
        assert(at < i);
        let k0 = choose|k0: int| 0 <= k0 < adj[p as int].len() && adj[p as int][k0] == v;
        lemma_scan_holds(adj, o, i as nat, 0, at, k0);
        let here = first_occurrences(scanned(adj, o, i as nat, 0));
        lemma_first_occurrences_contains(scanned(adj, o, i as nat, 0), v);
        lemma_behind_begins_order(adj, t, i as nat);
        let x = choose|x: int| 0 <= x < here.len() && here[x] == v;
        assert(here[x] == o[x]);
        assert(x == i);
    }
}

/// Two breadth-first trees of a graph from the same root discover the same
/// nodes in the same order.
proof fn lemma_orders_agree(adj: Seq<Seq<usize>>, a: TreeView, b: TreeView, j: nat)
    requires
        is_breadth_first(adj, a),
        is_breadth_first(adj, b),
        a.source == b.source,
        j <= a.order.len(),
        j <= b.order.len(),
    ensures
        forall|i: int| 0 <= i < j ==> a.order[i] == b.order[i],
        scanned(adj, a.order, j, 0) == scanned(adj, b.order, j, 0),
    decreases j,
{
    if j > 0 {
        let i = (j - 1) as nat;
        lemma_orders_agree(adj, a, b, i);
        lemma_discovered_before_scanned(adj, a, i as int);
        lemma_discovered_before_scanned(adj, b, i as int);
        lemma_behind_begins_order(adj, a, i);
        lemma_behind_begins_order(adj, b, i);
        let behind = first_occurrences(scanned(adj, a.order, i, 0));
        assert(behind[i as int] == a.order[i as int]);
        assert(behind[i as int] == b.order[i as int]);
    }
    lemma_scan_agrees(adj, a.order, b.order, j, 0);
}

/// The breadth-first tree of the graph from `source`.
pub open spec fn breadth_first_tree(adj: Seq<Seq<usize>>, source: usize) -> TreeView {
    choose|t: TreeView| is_breadth_first(adj, t) && t.source == source
}

/// A tree is the breadth-first tree of the graph from its root exactly if
/// it is a breadth-first tree of the graph.
pub proof fn lemma_is_the_breadth_first_tree(adj: Seq<Seq<usize>>, t: TreeView)
    requires
        is_breadth_first(adj, t),
    ensures
        t == breadth_first_tree(adj, t.source),
{
    lemma_breadth_first_unique(adj, t, breadth_first_tree(adj, t.source));
}

/// A graph has one breadth-first tree from each node: the discovery order,
/// the parents and the distances of two such trees are the same.
pub proof fn lemma_breadth_first_unique(adj: Seq<Seq<usize>>, a: TreeView, b: TreeView)
    requires
        is_breadth_first(adj, a),
        is_breadth_first(adj, b),
        a.source == b.source,
    ensures
        a == b,
{
    let la = a.order.len();
    let lb = b.order.len();
    if la < lb {
        lemma_orders_agree(adj, a, b, la);
        lemma_discovered_before_scanned(adj, b, la as int);
    }
    if lb < la {
        lemma_orders_agree(adj, a, b, lb);
        lemma_discovered_before_scanned(adj, a, lb as int);
    }
    lemma_orders_agree(adj, a, b, la);
    assert(a.order =~= b.order);
    lemma_order_is_distinct(adj, a);
    assert forall|v: int| 0 <= v < adj.len() implies a.parent[v] == b.parent[v] by {
        if a.parent[v] is Some {
            lemma_parents_agree(adj, a, b, v);
        } else if b.parent[v] is Some {
            lemma_parents_agree(adj, b, a, v);
        }
    }
    assert(a.parent =~= b.parent);
    assert forall|v: int| 0 <= v < adj.len() implies a.distance[v] == b.distance[v] by {
        if a.distance[v] is Some {
            lemma_distances_agree(adj, a, b, v as usize);
        }
    }
    assert(a.distance =~= b.distance);
}

/// Where one of two breadth-first trees with the same discovery order
/// gives a node a parent, the other gives it the same.
proof fn lemma_parents_agree(adj: Seq<Seq<usize>>, a: TreeView, b: TreeView, v: int)
    requires
        is_breadth_first(adj, a),
        is_breadth_first(adj, b),
        a.source == b.source,
        a.order == b.order,
        0 <= v < adj.len(),
        a.parent[v] is Some,
    ensures
        b.parent[v] == a.parent[v],
{
    let o = a.order;
    assert(a.link_ok(v));
    assert(b.link_ok(v));
    assert(a.parent_is_first_discoverer(adj, v));
    assert(b.parent_is_first_discoverer(adj, v));
    assert(a.distance[v] is Some);
    assert(o.contains(v as usize));
    assert(b.distance[v] is Some);
    let pa = a.parent[v].unwrap();
    let pb = b.parent[v].unwrap();
    let ja = o.index_of(pa);
    let jb = o.index_of(pb);
    assert(o[ja] == pa);
    assert(o[jb] == pb);
    if ja < jb {
        assert(!adj[o[ja] as int].contains(v as usize));
    }
    if jb < ja {
        assert(!adj[o[jb] as int].contains(v as usize));
    }
}

/// Two breadth-first trees with the same parents give a discovered node the
/// same distance.
proof fn lemma_distances_agree(adj: Seq<Seq<usize>>, a: TreeView, b: TreeView, v: usize)
    requires
        is_breadth_first(adj, a),
        is_breadth_first(adj, b),
        a.source == b.source,
        a.order == b.order,
        a.parent == b.parent,
        v < adj.len(),
        a.distance[v as int] is Some,
    ensures
        b.distance[v as int] == a.distance[v as int],
    decreases a.distance[v as int].unwrap(),
{
    assert(a.link_ok(v as int));
    assert(b.link_ok(v as int));
    assert(a.order.contains(v));
    assert(b.distance[v as int] is Some);
    if v != a.source {
        let p = a.parent[v as int].unwrap();
        lemma_distances_agree(adj, a, b, p);
    }
}

} // verus!
