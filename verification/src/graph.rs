//! The graph store: one list of successors per node.

use vstd::prelude::*;
use vstd::slice::slice_subrange;
use crate::edge_list::{
    edge_of, find_line_end, lemma_line_end_bounds, line_at, lines, lines_from, number, parse_edge,
    parse_number, CARRIAGE_RETURN,
};
use crate::error::{FormatError, FormatErrorKind};
use crate::walk::closed_adjacency;

verus! {

/// The nodes that the edges out of `u` lead to, in the order of the edges.
pub open spec fn successors(edges: Seq<(usize, usize)>, u: int) -> Seq<usize>
    decreases edges.len(),
{
    if edges.len() == 0 {
        Seq::empty()
    } else {
        let before = successors(edges.drop_last(), u);
        if edges.last().0 == u {
            before.push(edges.last().1)
        } else {
            before
        }
    }
}

/// The adjacency sequence of the graph with `n` nodes and the given edges.
pub open spec fn adjacency_of(n: nat, edges: Seq<(usize, usize)>) -> Seq<Seq<usize>> {
    Seq::new(n, |u: int| successors(edges, u))
}

/// The edges that the lines 2 to `count + 1` of an edge list stand for.
pub open spec fn edges_of(list: Seq<Seq<u8>>, n: nat, count: nat) -> Seq<(usize, usize)> {
    Seq::new(count, |i: int| edge_of(list[i + 1], n)->Ok_0)
}

/// The text is an edge list: it has no line at all, or its first line is a
/// number of nodes and every further line is an edge between two of them.
pub open spec fn is_edge_list(text: Seq<u8>) -> bool {
    let list = lines(text);
    list.len() > 0 ==> {
        &&& number(list[0]) is Some
        &&& forall|i: int|
            1 <= i < list.len() ==> (#[trigger] edge_of(
                list[i],
                number(list[0]).unwrap() as nat,
            )) is Ok
    }
}

/// The graph that an edge list describes: as many nodes as its first line
/// says, and the edges of the further lines in the order of the lines. A
/// text without any line describes the graph without nodes.
pub open spec fn graph_of(text: Seq<u8>) -> Seq<Seq<usize>> {
    let list = lines(text);
    if list.len() == 0 {
        Seq::empty()
    } else {
        adjacency_of(
            number(list[0]).unwrap() as nat,
            edges_of(list, number(list[0]).unwrap() as nat, (list.len() - 1) as nat),
        )
    }
}

/// Line `e.line` is the first line of the text that cannot be read, and
/// `e.kind` says why.
pub open spec fn rejects(text: Seq<u8>, e: FormatError) -> bool {
    let list = lines(text);
    &&& 1 <= e.line <= list.len()
    &&& match number(list[0]) {
        None => e.line == 1 && e.kind == FormatErrorKind::MalformedCount,
        Some(n) => {
            &&& e.line > 1
            &&& edge_of(list[e.line - 1], n as nat) == Err::<(usize, usize), FormatErrorKind>(e.kind)
            &&& forall|i: int|
                1 <= i < e.line - 1 ==> (#[trigger] edge_of(list[i], n as nat)) is Ok
        },
    }
}

/// Every entry of the list of `u` is the end of one of the edges.
proof fn lemma_successor_is_edge_end(edges: Seq<(usize, usize)>, u: int, k: int)
    requires
        0 <= k < successors(edges, u).len(),
    ensures
        exists|i: int| 0 <= i < edges.len() && (#[trigger] edges[i]).1 == successors(edges, u)[k],
    decreases edges.len(),
{
    let before = successors(edges.drop_last(), u);
    if edges.last().0 == u && k == before.len() {
        assert(edges[edges.len() - 1].1 == successors(edges, u)[k]);
    } else {
        lemma_successor_is_edge_end(edges.drop_last(), u, k);
        let i = choose|i: int|
            0 <= i < edges.drop_last().len() && (#[trigger] edges.drop_last()[i]).1 == before[k];
        assert(edges[i].1 == successors(edges, u)[k]);
    }
}

/// The graph that an edge list describes has as many nodes as the first
/// line of the list says, and every edge in it ends in one of them.
pub proof fn lemma_graph_of_edge_list_is_closed(text: Seq<u8>)
    requires
        is_edge_list(text),
    ensures
        lines(text).len() == 0 ==> graph_of(text).len() == 0,
        lines(text).len() > 0 ==> number(lines(text)[0]) == Some(graph_of(text).len() as usize),
        graph_of(text).len() <= usize::MAX,
        closed_adjacency(graph_of(text)),
{
    let list = lines(text);
    let adj = graph_of(text);
    if list.len() > 0 {
        let n = number(list[0]).unwrap() as nat;
        let edges = edges_of(list, n, (list.len() - 1) as nat);
        assert forall|u: int, k: int| 0 <= u < adj.len() && 0 <= k < adj[u].len() implies (
        #[trigger] adj[u][k]) < adj.len() by {
            lemma_successor_is_edge_end(edges, u, k);
            let i = choose|i: int|
                0 <= i < edges.len() && (#[trigger] edges[i]).1 == successors(edges, u)[k];
            assert(edge_of(list[i + 1], n) is Ok);
        }
    }
}

spec fn lists_view(lists: Seq<Vec<usize>>) -> Seq<Seq<usize>> {
    Seq::new(lists.len(), |u: int| lists[u]@)
}

proof fn lemma_one_more_edge(n: nat, edges: Seq<(usize, usize)>, x: usize, y: usize)
    requires
        x < n,
    ensures
        adjacency_of(n, edges.push((x, y))) == adjacency_of(n, edges).update(
            x as int,
            adjacency_of(n, edges)[x as int].push(y),
        ),
{
    assert(edges.push((x, y)).drop_last() =~= edges);
    assert(adjacency_of(n, edges.push((x, y))) =~= adjacency_of(n, edges).update(
        x as int,
        adjacency_of(n, edges)[x as int].push(y),
    ));
}

/// `n` lists without entries.
fn empty_lists(n: usize) -> (lists: Vec<Vec<usize>>)
    ensures
        lists_view(lists@) == adjacency_of(n as nat, Seq::empty()),
        lists@.len() == n,
{
    let mut lists: Vec<Vec<usize>> = Vec::new();
    let mut u: usize = 0;
    while u < n
        invariant
            u <= n,
            lists@.len() == u,
            forall|w: int| 0 <= w < u ==> (#[trigger] lists@[w])@ == Seq::<usize>::empty(),
        decreases n - u,
    {
        lists.push(Vec::new());
        u += 1;
    }
    assert(lists_view(lists@) =~= adjacency_of(n as nat, Seq::empty()));
    lists
}

/// A directed graph over the nodes `0..n`, fixed once it is built.
///
/// Edges may repeat and may lead from a node to itself. Each list keeps its
/// entries in the order in which the edges were given.
pub struct Graph {
    adj_list: Vec<Vec<usize>>,
}

impl View for Graph {
    type V = Seq<Seq<usize>>;

    /// The adjacency sequence: entry `u` lists the successors of node `u`.
    closed spec fn view(&self) -> Seq<Seq<usize>> {
        lists_view(self.adj_list@)
    }
}

impl Graph {
    #[verifier::type_invariant]
    spec fn endpoints_in_range(&self) -> bool {
        closed_adjacency(self@)
    }

    /// Builds the graph that an edge list describes.
    ///
    /// The first line holds nothing but the number of nodes `n`. Every
    /// further line holds an edge: the numbers of two nodes below `n`,
    /// separated by blanks; what follows them on the line does not count.
    /// The edge is appended to the list of the node it leaves, so each list
    /// is in the order of the lines. Reading stops at the first line that
    /// cannot be read. A text without any line gives the graph without
    /// nodes.
    pub fn new(text: &[u8]) -> (graph: Result<Graph, FormatError>)
        ensures
            graph is Ok <==> is_edge_list(text@),
            graph matches Ok(g) ==> g@ == graph_of(text@) && closed_adjacency(g@),
            graph matches Err(e) ==> rejects(text@, e),
    {
        let mut adj_list: Vec<Vec<usize>> = Vec::new();
        let mut n: usize = 0;
        let mut pos: usize = 0;
        let mut read: usize = 0;
        let ghost list = lines(text@);
        assert(list.skip(0) =~= list);
        while pos < text.len()
            invariant
                pos <= text@.len(),
                list == lines(text@),
                read <= list.len(),
                read <= pos,
                lines_from(text@, pos as int) == list.skip(read as int),
                read == 0 ==> adj_list@.len() == 0,
                read > 0 ==> {
                    &&& number(list[0]) == Some(n)
                    &&& forall|i: int| 1 <= i < read ==> (#[trigger] edge_of(list[i], n as nat)) is Ok
                    &&& lists_view(adj_list@) == adjacency_of(
                        n as nat,
                        edges_of(list, n as nat, (read - 1) as nat),
                    )
                },
                closed_adjacency(lists_view(adj_list@)),
            decreases text@.len() - pos,
        {
            let end = find_line_end(text, pos);
            let stop = if pos < end && end < text.len() && text[end - 1] == CARRIAGE_RETURN {
                end - 1
            } else {
                end
            };
            let line = slice_subrange(text, pos, stop);
            proof {
                lemma_line_end_bounds(text@, pos as int);
                let rest = list.skip(read as int);
                assert(line@ == line_at(text@, pos as int));
                assert(rest.len() >= 1);
                assert(rest[0] == line@);
                assert(list[read as int] == line@);
                assert(rest.skip(1) =~= list.skip(read + 1));
                if end < text@.len() {
                    let tail = lines_from(text@, end + 1);
                    assert(rest == seq![line@] + tail);
                    assert((seq![line@] + tail).skip(1) =~= tail);
                } else {
                    assert(rest == seq![line@]);
                    assert(lines_from(text@, end as int) =~= Seq::<Seq<u8>>::empty());
                }
            }
            if read == 0 {
                match parse_number(line) {
                    None => {
                        return Err(FormatError { line: 1, kind: FormatErrorKind::MalformedCount });
                    },
                    Some(count) => {
                        n = count;
                        adj_list = empty_lists(n);
                        assert(edges_of(list, n as nat, 0) =~= Seq::empty());
                    },
                }
            } else {
                match parse_edge(line, n) {
                    Err(kind) => {
                        return Err(FormatError { line: read + 1, kind });
                    },
                    Ok((x, y)) => {
                        let ghost before = lists_view(adj_list@);
                        let ghost edges = edges_of(list, n as nat, (read - 1) as nat);
                        adj_list[x].push(y);
                        proof {
                            lemma_one_more_edge(n as nat, edges, x, y);
                            assert(edges_of(list, n as nat, read as nat) =~= edges.push((x, y)));
                            assert(lists_view(adj_list@) =~= before.update(
                                x as int,
                                before[x as int].push(y),
                            ));
                        }
                    },
                }
            }
            read += 1;
            pos = if end < text.len() {
                end + 1
            } else {
                end
            };
        }
        assert(lists_view(adj_list@) =~= graph_of(text@));
        Ok(Graph { adj_list })
    }

    /// The number of nodes. Every edge of a graph ends in one of them.
    pub fn node_count(&self) -> (n: usize)
        ensures
            n == self@.len(),
            closed_adjacency(self@),
    {
        proof {
            use_type_invariant(self);
        }
        self.adj_list.len()
    }

    /// The successors of `node`, in edge-arrival order.
    pub fn neighbors(&self, node: usize) -> (list: &Vec<usize>)
        requires
            node < self@.len(),
        ensures
            list@ == self@[node as int],
    {
        &self.adj_list[node]
    }

    /// The out-degree of `node`.
    pub fn degree(&self, node: usize) -> (d: usize)
        requires
            node < self@.len(),
        ensures
            d == self@[node as int].len(),
    {
        self.adj_list[node].len()
    }

    /// The out-degree of every node, in node order.
    pub fn degree_centrality(&self) -> (degrees: Vec<usize>)
        ensures
            degrees@.len() == self@.len(),
            forall|u: int| 0 <= u < self@.len() ==> degrees@[u] == (#[trigger] self@[u]).len(),
    {
        let mut degrees: Vec<usize> = Vec::new();
        let mut u: usize = 0;
        while u < self.adj_list.len()
            invariant
                u <= self.adj_list.len(),
                degrees@.len() == u,
                forall|w: int| 0 <= w < u ==> degrees@[w] == (#[trigger] self@[w]).len(),
            decreases self.adj_list.len() - u,
        {
            degrees.push(self.adj_list[u].len());
            u += 1;
        }
        degrees
    }
}

} // verus!
