//! Degree statistics and sampled path lengths.

use vstd::prelude::*;
use crate::error::EmptyGraphError;
use crate::graph::Graph;
use crate::sampler::Sampler;
use crate::walk::{distance, reachable};

verus! {

/// The out-degrees of the given nodes, in their order.
pub open spec fn degrees_of_nodes(adj: Seq<Seq<usize>>, nodes: Seq<usize>) -> Seq<usize> {
    Seq::new(nodes.len(), |i: int| adj[nodes[i] as int].len() as usize)
}

/// Every entry of `nodes` is a node of a graph with `n` nodes.
pub open spec fn all_nodes(n: nat, nodes: Seq<usize>) -> bool {
    forall|i: int| 0 <= i < nodes.len() ==> (#[trigger] nodes[i]) < n
}

/// Both ends of every pair are nodes of a graph with `n` nodes.
pub open spec fn all_node_pairs(n: nat, pairs: Seq<(usize, usize)>) -> bool {
    forall|i: int| 0 <= i < pairs.len() ==> (#[trigger] pairs[i]).0 < n && pairs[i].1 < n
}

/// The sum of the values.
pub open spec fn sum_of(values: Seq<usize>) -> nat
    decreases values.len(),
{
    if values.len() == 0 {
        0
    } else {
        sum_of(values.drop_last()) + values.last() as nat
    }
}

/// `d` is the greatest out-degree of the graph, and 0 where it has no node.
pub open spec fn is_max_degree(adj: Seq<Seq<usize>>, d: nat) -> bool {
    &&& forall|u: int| 0 <= u < adj.len() ==> (#[trigger] adj[u]).len() <= d
    &&& d == 0 || exists|u: int| 0 <= u < adj.len() && (#[trigger] adj[u]).len() == d
}

/// What one trial from `s` to `t` records: the number of nodes on a
/// shortest path, which is one more than its number of edges, and nothing
/// where `s` does not reach `t`.
pub open spec fn path_nodes(adj: Seq<Seq<usize>>, s: usize, t: usize) -> nat {
    if reachable(adj, s, t) {
        distance(adj, s, t) + 1
    } else {
        0
    }
}

/// The sum of what the trials record.
pub open spec fn total_path_nodes(adj: Seq<Seq<usize>>, pairs: Seq<(usize, usize)>) -> nat
    decreases pairs.len(),
{
    if pairs.len() == 0 {
        0
    } else {
        total_path_nodes(adj, pairs.drop_last()) + path_nodes(adj, pairs.last().0, pairs.last().1)
    }
}

/// The number of trials that record a path.
pub open spec fn connected_pairs(adj: Seq<Seq<usize>>, pairs: Seq<(usize, usize)>) -> nat
    decreases pairs.len(),
{
    if pairs.len() == 0 {
        0
    } else {
        connected_pairs(adj, pairs.drop_last()) + if reachable(
            adj,
            pairs.last().0,
            pairs.last().1,
        ) {
            1nat
        } else {
            0nat
        }
    }
}

/// What a run of trials has recorded: the number of trials that found a
/// path, and the number of nodes on all those paths together. The mean path
/// length in nodes is the second divided by the first; in edges it is one
/// less.
#[derive(Clone, Copy, Debug, PartialEq, Eq, Structural)]
pub struct DistanceSummary {
    pub total_nodes: u128,
    pub recorded: usize,
}

/// `summary` holds what the trials between the given pairs record.
pub open spec fn summarizes(
    adj: Seq<Seq<usize>>,
    pairs: Seq<(usize, usize)>,
    summary: DistanceSummary,
) -> bool {
    &&& summary.total_nodes == total_path_nodes(adj, pairs)
    &&& summary.recorded == connected_pairs(adj, pairs)
}

/// `summary` holds what `trials` trials between some pairs of nodes record.
pub open spec fn summarizes_trials(adj: Seq<Seq<usize>>, trials: nat, summary: DistanceSummary) -> bool {
    exists|pairs: Seq<(usize, usize)>|
        pairs.len() == trials && all_node_pairs(adj.len(), pairs) && #[trigger] summarizes(
            adj,
            pairs,
            summary,
        )
}

/// `degrees` holds the out-degrees of some `count` nodes of the graph.
pub open spec fn samples_degrees(adj: Seq<Seq<usize>>, count: nat, degrees: Seq<usize>) -> bool {
    exists|nodes: Seq<usize>|
        nodes.len() == count && all_nodes(adj.len(), nodes) && #[trigger] degrees_of_nodes(
            adj,
            nodes,
        ) == degrees
}

/// The same trials on the same graph record the same.
pub proof fn lemma_summary_is_determined(
    adj: Seq<Seq<usize>>,
    pairs: Seq<(usize, usize)>,
    first: DistanceSummary,
    second: DistanceSummary,
)
    requires
        summarizes(adj, pairs, first),
        summarizes(adj, pairs, second),
    ensures
        first == second,
{
}

/// No more trials record a path than there are trials, and each of those
/// records at least one node.
pub proof fn lemma_summary_bounds(adj: Seq<Seq<usize>>, pairs: Seq<(usize, usize)>)
    ensures
        connected_pairs(adj, pairs) <= pairs.len(),
        connected_pairs(adj, pairs) <= total_path_nodes(adj, pairs),
    decreases pairs.len(),
{
    if pairs.len() > 0 {
        lemma_summary_bounds(adj, pairs.drop_last());
    }
}

/// The sum of the values.
pub fn degree_sum(degrees: &Vec<usize>) -> (total: u128)
    ensures
        total == sum_of(degrees@),
{
    let mut total: u128 = 0;
    let mut i: usize = 0;
    while i < degrees.len()
        invariant
            i <= degrees@.len(),
            total == sum_of(degrees@.take(i as int)),
            total <= i * 0xffff_ffff_ffff_ffff,
        decreases degrees@.len() - i,
    {
        assert(degrees@.take(i + 1).drop_last() =~= degrees@.take(i as int));
        total += degrees[i] as u128;
        i += 1;
    }
    assert(degrees@.take(i as int) =~= degrees@);
    total
}

impl Graph {
    /// The out-degrees of the given nodes.
    pub fn degrees_of(&self, nodes: &Vec<usize>) -> (degrees: Vec<usize>)
        requires
            all_nodes(self@.len(), nodes@),
        ensures
            degrees@ == degrees_of_nodes(self@, nodes@),
    {
        let mut degrees: Vec<usize> = Vec::new();
        let mut i: usize = 0;
        while i < nodes.len()
            invariant
                i <= nodes@.len(),
                all_nodes(self@.len(), nodes@),
                degrees@ == degrees_of_nodes(self@, nodes@.take(i as int)),
            decreases nodes@.len() - i,
        {
            degrees.push(self.degree(nodes[i]));
            i += 1;
            assert(degrees@ =~= degrees_of_nodes(self@, nodes@.take(i as int)));
        }
        assert(nodes@.take(i as int) =~= nodes@);
        degrees
    }

    /// The out-degree of a node drawn at random.
    pub fn calculate_degree(&self, sampler: &mut Sampler) -> (degree: Result<usize, EmptyGraphError>)
        ensures
            degree is Err <==> self@.len() == 0,
            degree matches Ok(d) ==> exists|u: int|
                0 <= u < self@.len() && (#[trigger] self@[u]).len() == d,
    {
        let n = self.node_count();
        match sampler.pick(n) {
            Ok(node) => Ok(self.degree(node)),
            Err(e) => Err(e),
        }
    }

    /// The out-degrees of `count` nodes drawn at random, one after the
    /// other and each from all nodes.
    pub fn sample_degree(&self, sampler: &mut Sampler, count: usize) -> (degrees: Result<
        Vec<usize>,
        EmptyGraphError,
    >)
        ensures
            degrees is Err <==> self@.len() == 0 && count > 0,
            degrees matches Ok(v) ==> samples_degrees(self@, count as nat, v@),
    {
        let n = self.node_count();
        match sampler.pick_many(n, count) {
            Ok(nodes) => {
                let degrees = self.degrees_of(&nodes);
                assert(nodes@.len() == count && all_nodes(self@.len(), nodes@) && degrees_of_nodes(
                    self@,
                    nodes@,
                ) == degrees@);
                Ok(degrees)
            },
            Err(e) => Err(e),
        }
    }

    /// The greatest out-degree.
    pub fn max_degree(&self) -> (degree: usize)
        ensures
            is_max_degree(self@, degree as nat),
    {
        let n = self.node_count();
        let mut degree: usize = 0;
        let mut u: usize = 0;
        while u < n
            invariant
                n == self@.len(),
                u <= n,
                forall|w: int| 0 <= w < u ==> (#[trigger] self@[w]).len() <= degree,
                degree == 0 || exists|w: int| 0 <= w < u && (#[trigger] self@[w]).len() == degree,
            decreases n - u,
        {
            let d = self.degree(u);
            if d > degree {
                degree = d;
            }
            u += 1;
        }
        degree
    }

    /// Runs one trial for every pair: a breadth-first search from the
    /// first node and the path to the second. A trial whose first node does
    /// not reach the second records nothing.
    pub fn distance_summary(&self, pairs: &Vec<(usize, usize)>) -> (summary: DistanceSummary)
        requires
            all_node_pairs(self@.len(), pairs@),
        ensures
            summarizes(self@, pairs@, summary),
    {
        let mut total_nodes: u128 = 0;
        let mut recorded: usize = 0;
        let mut i: usize = 0;
        while i < pairs.len()
            invariant
                i <= pairs@.len(),
                all_node_pairs(self@.len(), pairs@),
                total_nodes == total_path_nodes(self@, pairs@.take(i as int)),
                recorded == connected_pairs(self@, pairs@.take(i as int)),
                recorded <= i,
                total_nodes <= i * 0xffff_ffff_ffff_ffff,
            decreases pairs@.len() - i,
        {
            assert(pairs@.take(i + 1).drop_last() =~= pairs@.take(i as int));
            let (start, end) = pairs[i];
            match self.bfs(start, end) {
                Some(path) => {
                    total_nodes += path.len() as u128;
                    recorded += 1;
                },
                None => {},
            }
            i += 1;
        }
        assert(pairs@.take(i as int) =~= pairs@);
        DistanceSummary { total_nodes, recorded }
    }

    /// Runs `trials` trials between pairs of nodes drawn at random, first
    /// the start and then the end of each pair, and returns what they
    /// record.
    pub fn average_distance(&self, sampler: &mut Sampler, trials: usize) -> (summary: Result<
        DistanceSummary,
        EmptyGraphError,
    >)
        ensures
            summary is Err <==> self@.len() == 0 && trials > 0,
            summary matches Ok(s) ==> summarizes_trials(self@, trials as nat, s),
    {
        let n = self.node_count();
        match sampler.pick_pairs(n, trials) {
            Ok(pairs) => {
                let summary = self.distance_summary(&pairs);
                assert(pairs@.len() == trials && all_node_pairs(self@.len(), pairs@) && summarizes(
                    self@,
                    pairs@,
                    summary,
                ));
                Ok(summary)
            },
            Err(e) => Err(e),
        }
    }
}

} // verus!
