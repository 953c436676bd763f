//! The clustering coefficient: how far the successors of a node are linked
//! among themselves.

use vstd::prelude::*;
use crate::graph::Graph;
use crate::walk::closed_adjacency;

verus! {

/// `b` stands in the adjacency list of `a`.
pub open spec fn linked(adj: Seq<Seq<usize>>, a: usize, b: usize) -> bool {
    a < adj.len() && adj[a as int].contains(b)
}

/// Among the first `m` entries of `nodes`, the number of entries that are
/// linked from entry `a`.
pub open spec fn linked_in_row(adj: Seq<Seq<usize>>, nodes: Seq<usize>, a: int, m: nat) -> nat
    decreases m,
{
    if m == 0 {
        0
    } else {
        linked_in_row(adj, nodes, a, (m - 1) as nat) + if linked(adj, nodes[a], nodes[m - 1]) {
            1nat
        } else {
            0nat
        }
    }
}

/// The number of pairs of places `(a, b)` in `nodes`, with `a` among the
/// first `rows` places and `b` any place, such that entry `a` is linked to
/// entry `b`. A place is paired with itself too, and two places that hold the
/// same node count as two.
pub open spec fn linked_pairs(adj: Seq<Seq<usize>>, nodes: Seq<usize>, rows: nat) -> nat
    decreases rows,
{
    if rows == 0 {
        0
    } else {
        linked_pairs(adj, nodes, (rows - 1) as nat) + linked_in_row(
            adj,
            nodes,
            rows - 1,
            nodes.len(),
        )
    }
}

/// The number of ordered pairs of different places among `k` places.
pub open spec fn possible_pairs(k: nat) -> nat {
    (k * (k - 1)) as nat
}

/// A node takes part in the coefficient if it has at least two successors.
pub open spec fn eligible(adj: Seq<Seq<usize>>, u: int) -> bool {
    adj[u].len() >= 2
}

/// The local coefficient of node `u`: the linked pairs among its successors
/// divided by the possible ones; 0 for a node that is not eligible.
pub open spec fn local_coefficient(adj: Seq<Seq<usize>>, u: int) -> real {
    if eligible(adj, u) {
        linked_pairs(adj, adj[u], adj[u].len()) as real / possible_pairs(adj[u].len()) as real
    } else {
        0real
    }
}

/// The sum of the local coefficients of the first `m` nodes.
pub open spec fn local_sum(adj: Seq<Seq<usize>>, m: nat) -> real
    decreases m,
{
    if m == 0 {
        0real
    } else {
        local_sum(adj, (m - 1) as nat) + local_coefficient(adj, m - 1)
    }
}

/// The clustering coefficient of the graph: the sum of the local
/// coefficients divided by the number of all nodes, eligible or not; 0 for
/// the graph without nodes.
pub open spec fn clustering_coefficient(adj: Seq<Seq<usize>>) -> real {
    if adj.len() == 0 {
        0real
    } else {
        local_sum(adj, adj.len()) / adj.len() as real
    }
}

/// No successor of `u` has an edge to itself.
pub open spec fn successors_without_loops(adj: Seq<Seq<usize>>, u: int) -> bool {
    forall|a: int| 0 <= a < adj[u].len() ==> !linked(adj, #[trigger] adj[u][a], adj[u][a])
}

/// The local coefficient of an eligible node as a fraction: the number of
/// linked pairs among its successors over the number of possible pairs.
#[derive(Clone, Copy, Debug, PartialEq, Eq, Structural)]
pub struct LocalClustering {
    pub node: usize,
    pub linked: u128,
    pub possible: u128,
}

/// The clustering of a graph in exact numbers: the local fraction of every
/// eligible node, in node order, and the number of all nodes.
pub struct Clustering {
    pub locals: Vec<LocalClustering>,
    pub node_count: usize,
}

/// The sum of the fractions.
pub open spec fn fraction_sum(locals: Seq<LocalClustering>) -> real
    decreases locals.len(),
{
    if locals.len() == 0 {
        0real
    } else {
        fraction_sum(locals.drop_last()) + locals.last().linked as real
            / locals.last().possible as real
    }
}

/// `local` is the local fraction of one of the eligible nodes of the graph.
pub open spec fn is_local_of(adj: Seq<Seq<usize>>, local: LocalClustering) -> bool {
    let u = local.node as int;
    &&& u < adj.len()
    &&& eligible(adj, u)
    &&& local.linked == linked_pairs(adj, adj[u], adj[u].len())
    &&& local.possible == possible_pairs(adj[u].len())
}

/// `locals` holds the local fraction of every eligible node among the first
/// `m` nodes of the graph, once each and in node order, and nothing else.
pub open spec fn lists_locals(adj: Seq<Seq<usize>>, locals: Seq<LocalClustering>, m: nat) -> bool {
    &&& forall|i: int|
        0 <= i < locals.len() ==> is_local_of(adj, #[trigger] locals[i]) && locals[i].node < m
    &&& forall|i: int, j: int|
        0 <= i < j < locals.len() ==> (#[trigger] locals[i]).node < (#[trigger] locals[j]).node
    &&& forall|u: int|
        0 <= u < m && #[trigger] eligible(adj, u) ==> exists|i: int|
            0 <= i < locals.len() && (#[trigger] locals[i]).node == u
}

impl Clustering {
    /// The coefficient that the numbers stand for: the sum of the fractions
    /// divided by the number of nodes, and 0 where there is no node.
    pub open spec fn value(&self) -> real {
        if self.node_count == 0 {
            0real
        } else {
            fraction_sum(self.locals@) / self.node_count as real
        }
    }
}

/// A row holds no more linked entries than entries, and one fewer where the
/// node of the row has no edge to itself.
pub proof fn lemma_row_bounded(adj: Seq<Seq<usize>>, nodes: Seq<usize>, a: int, m: nat)
    requires
        0 <= a < nodes.len(),
        m <= nodes.len(),
    ensures
        linked_in_row(adj, nodes, a, m) <= m,
        !linked(adj, nodes[a], nodes[a]) && a < m ==> linked_in_row(adj, nodes, a, m) <= m - 1,
    decreases m,
{
    if m > 0 {
        lemma_row_bounded(adj, nodes, a, (m - 1) as nat);
    }
}

/// There are no more linked pairs than pairs of places, and no more than
/// pairs of different places where no node in `nodes` has an edge to itself.
pub proof fn lemma_pairs_bounded(adj: Seq<Seq<usize>>, nodes: Seq<usize>, rows: nat)
    requires
        rows <= nodes.len(),
    ensures
        linked_pairs(adj, nodes, rows) <= rows * nodes.len(),
        (forall|a: int| 0 <= a < nodes.len() ==> !linked(adj, #[trigger] nodes[a], nodes[a]))
            ==> linked_pairs(adj, nodes, rows) <= rows * (nodes.len() - 1),
    decreases rows,
{
    if rows > 0 {
        lemma_pairs_bounded(adj, nodes, (rows - 1) as nat);
        lemma_row_bounded(adj, nodes, rows - 1, nodes.len());
        assert(rows * nodes.len() == (rows - 1) * nodes.len() + nodes.len()) by (nonlinear_arith);
        assert(rows * (nodes.len() - 1) == (rows - 1) * (nodes.len() - 1) + (nodes.len() - 1))
            by (nonlinear_arith);
        if forall|a: int| 0 <= a < nodes.len() ==> !linked(adj, #[trigger] nodes[a], nodes[a]) {
            assert(!linked(adj, nodes[rows - 1], nodes[rows - 1]));
        }
    } else {
        assert(rows * nodes.len() == 0) by (nonlinear_arith)
            requires
                rows == 0,
        ;
        assert(rows * (nodes.len() - 1) == 0) by (nonlinear_arith)
            requires
                rows == 0,
        ;
    }
}

/// The linked pairs among the successors of `u` are no more than the
/// possible ones.
pub open spec fn at_most_possible(adj: Seq<Seq<usize>>, u: int) -> bool {
    linked_pairs(adj, adj[u], adj[u].len()) <= possible_pairs(adj[u].len())
}

/// Where no successor of a node has an edge to itself, the linked pairs
/// among the successors are no more than the possible ones.
pub proof fn lemma_without_loops_at_most_possible(adj: Seq<Seq<usize>>, u: int)
    requires
        0 <= u < adj.len(),
        successors_without_loops(adj, u),
    ensures
        at_most_possible(adj, u),
{
    lemma_pairs_bounded(adj, adj[u], adj[u].len());
    let k = adj[u].len();
    if k > 0 {
        assert(possible_pairs(k) == k * (k - 1));
    } else {
        assert(k * (k - 1) == 0) by (nonlinear_arith)
            requires
                k == 0,
        ;
    }
}

/// A local coefficient is never negative, and at most 1 where the linked
/// pairs are no more than the possible ones.
pub proof fn lemma_local_coefficient_bounds(adj: Seq<Seq<usize>>, u: int)
    requires
        0 <= u < adj.len(),
    ensures
        0real <= local_coefficient(adj, u),
        at_most_possible(adj, u) ==> local_coefficient(adj, u) <= 1real,
{
    if eligible(adj, u) {
        let k = adj[u].len();
        let linked_count = linked_pairs(adj, adj[u], k);
        let possible = possible_pairs(k);
        assert(possible >= 2) by (nonlinear_arith)
            requires
                k >= 2,
                possible == k * (k - 1),
        ;
        assert(0real <= linked_count as real / possible as real) by (nonlinear_arith)
            requires
                linked_count >= 0,
                possible >= 2,
        ;
        if at_most_possible(adj, u) {
            assert(linked_count as real / possible as real <= 1real) by (nonlinear_arith)
                requires
                    linked_count <= possible,
                    possible >= 2,
            ;
        }
    }
}

/// The sum of the first `m` local coefficients is never negative. It is at
/// most `m` where no eligible node among them has more linked pairs than
/// possible ones, and 0 where none of them is eligible.
pub proof fn lemma_local_sum_bounds(adj: Seq<Seq<usize>>, m: nat)
    requires
        m <= adj.len(),
    ensures
        0real <= local_sum(adj, m),
        (forall|u: int| 0 <= u < m && #[trigger] eligible(adj, u) ==> at_most_possible(adj, u))
            ==> local_sum(adj, m) <= m as real,
        (forall|u: int| 0 <= u < m ==> !#[trigger] eligible(adj, u)) ==> local_sum(adj, m)
            == 0real,
    decreases m,
{
    if m > 0 {
        lemma_local_sum_bounds(adj, (m - 1) as nat);
        lemma_local_coefficient_bounds(adj, m - 1);
        if forall|u: int| 0 <= u < m && #[trigger] eligible(adj, u) ==> at_most_possible(adj, u) {
            if eligible(adj, m - 1) {
                assert(at_most_possible(adj, m - 1));
            }
        }
        if forall|u: int| 0 <= u < m ==> !#[trigger] eligible(adj, u) {
            assert(!eligible(adj, m - 1));
        }
    }
}

/// The clustering coefficient is never negative.
pub proof fn lemma_coefficient_not_negative(adj: Seq<Seq<usize>>)
    ensures
        0real <= clustering_coefficient(adj),
{
    if adj.len() > 0 {
        let n = adj.len();
        let total = local_sum(adj, n);
        lemma_local_sum_bounds(adj, n);
        assert(0real <= total / n as real) by (nonlinear_arith)
            requires
                0real <= total,
                n > 0,
        ;
    }
}

/// The clustering coefficient lies between 0 and 1 on a graph in which no
/// eligible node has more linked pairs among its successors than possible
/// ones.
pub proof fn lemma_coefficient_in_unit_interval(adj: Seq<Seq<usize>>)
    requires
        forall|u: int| 0 <= u < adj.len() && #[trigger] eligible(adj, u) ==> at_most_possible(adj, u),
    ensures
        0real <= clustering_coefficient(adj) <= 1real,
{
    lemma_coefficient_not_negative(adj);
    if adj.len() > 0 {
        let n = adj.len();
        let total = local_sum(adj, n);
        lemma_local_sum_bounds(adj, n);
        assert(total / n as real <= 1real) by (nonlinear_arith)
            requires
                total <= n as real,
                n > 0,
        ;
    }
}

/// The clustering coefficient lies between 0 and 1 on a graph in which no
/// successor of an eligible node has an edge to itself.
pub proof fn lemma_coefficient_without_loops(adj: Seq<Seq<usize>>)
    requires
        forall|u: int|
            0 <= u < adj.len() && #[trigger] eligible(adj, u) ==> successors_without_loops(adj, u),
    ensures
        0real <= clustering_coefficient(adj) <= 1real,
{
    assert forall|u: int| 0 <= u < adj.len() && #[trigger] eligible(adj, u) implies at_most_possible(
        adj,
        u,
    ) by {
        lemma_without_loops_at_most_possible(adj, u);
    }
    lemma_coefficient_in_unit_interval(adj);
}

/// The clustering coefficient of a graph without an eligible node is 0.
pub proof fn lemma_coefficient_zero_without_eligible(adj: Seq<Seq<usize>>)
    requires
        forall|u: int| 0 <= u < adj.len() ==> !#[trigger] eligible(adj, u),
    ensures
        clustering_coefficient(adj) == 0real,
{
    if adj.len() > 0 {
        let n = adj.len();
        let total = local_sum(adj, n);
        lemma_local_sum_bounds(adj, n);
        assert(total / n as real == 0real) by (nonlinear_arith)
            requires
                total == 0real,
                n > 0,
        ;
    }
}

/// Whether `node` stands in `list`.
pub fn list_contains(list: &Vec<usize>, node: usize) -> (found: bool)
    ensures
        found == list@.contains(node),
{
    let mut i: usize = 0;
    while i < list.len()
        invariant
            i <= list@.len(),
            forall|j: int| 0 <= j < i ==> list@[j] != node,
        decreases list@.len() - i,
    {
        if list[i] == node {
            return true;
        }
        i += 1;
    }
    false
}

impl Graph {
    /// The number of linked pairs among `nodes`: of all pairs of places in
    /// the list, those whose second node stands in the adjacency list of the
    /// first.
    pub fn linked_pair_count(&self, nodes: &Vec<usize>) -> (count: u128)
        requires
            forall|i: int| 0 <= i < nodes@.len() ==> (#[trigger] nodes@[i]) < self@.len(),
        ensures
            count == linked_pairs(self@, nodes@, nodes@.len()),
    {
        let k = nodes.len();
        let mut count: u128 = 0;
        let mut a: usize = 0;
        while a < k
            invariant
                k == nodes@.len(),
                a <= k,
                forall|i: int| 0 <= i < nodes@.len() ==> (#[trigger] nodes@[i]) < self@.len(),
                count == linked_pairs(self@, nodes@, a as nat),
            decreases k - a,
        {
            let list = self.neighbors(nodes[a]);
            let mut b: usize = 0;
            while b < k
                invariant
                    k == nodes@.len(),
                    a < k,
                    b <= k,
                    list@ == self@[nodes@[a as int] as int],
                    nodes@[a as int] < self@.len(),
                    count == linked_pairs(self@, nodes@, a as nat) + linked_in_row(
                        self@,
                        nodes@,
                        a as int,
                        b as nat,
                    ),
                decreases k - b,
            {
                proof {
                    lemma_pairs_bounded(self@, nodes@, a as nat);
                    lemma_row_bounded(self@, nodes@, a as int, b as nat);
                    assert(a * k + b < u128::MAX) by (nonlinear_arith)
                        requires
                            a < k,
                            b < k,
                            k <= 0xffff_ffff_ffff_ffff,
                    ;
                }
                if list_contains(list, nodes[b]) {
                    count += 1;
                }
                b += 1;
            }
            a += 1;
        }
        count
    }

    /// The clustering coefficient in exact numbers.
    ///
    /// Every node with at least two successors contributes the fraction of
    /// linked pairs among its successors; the other nodes contribute
    /// nothing. The coefficient is the sum of these fractions divided by the
    /// number of all nodes.
    pub fn clustering_coefficient(&self) -> (clustering: Clustering)
        ensures
            clustering.node_count == self@.len(),
            lists_locals(self@, clustering.locals@, self@.len()),
            clustering.value() == clustering_coefficient(self@),
    {
        let n = self.node_count();
        let mut locals: Vec<LocalClustering> = Vec::new();
        let mut u: usize = 0;
        while u < n
            invariant
                n == self@.len(),
                closed_adjacency(self@),
                u <= n,
                lists_locals(self@, locals@, u as nat),
                fraction_sum(locals@) == local_sum(self@, u as nat),
            decreases n - u,
        {
            let successors = self.neighbors(u);
            let k = successors.len();
            if k >= 2 {
                let linked_count = self.linked_pair_count(successors);
                assert((k as u128) * ((k - 1) as u128) == possible_pairs(k as nat)
                    && possible_pairs(k as nat) < 0x1_0000_0000_0000_0000 * 0x1_0000_0000_0000_0000) by (nonlinear_arith)
                    requires
                        2 <= k < 0x1_0000_0000_0000_0000,
                ;
                let possible = (k as u128) * ((k - 1) as u128);
                let local = LocalClustering { node: u, linked: linked_count, possible };
                let ghost before = locals@;
                locals.push(local);
                proof {
                    assert(locals@.drop_last() =~= before);
                    assert(is_local_of(self@, local));
                    assert forall|w: int| 0 <= w < u + 1 && #[trigger] eligible(self@, w) implies exists|
                        i: int,
                    |
                        0 <= i < locals@.len() && (#[trigger] locals@[i]).node == w by {
                        if w < u {
                            let i = choose|i: int|
                                0 <= i < before.len() && (#[trigger] before[i]).node == w;
                            assert(locals@[i].node == w);
                        } else {
                            assert(locals@[before.len() as int].node == w);
                        }
                    }
                }
            }
            u += 1;
        }
        Clustering { locals, node_count: n }
    }
}

} // verus!
