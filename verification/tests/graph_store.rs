use social_graph::error::{FormatError, FormatErrorKind};
use social_graph::graph::Graph;
use social_graph::sampler::Sampler;

fn chain_with_cycle() -> &'static str {
    "4\n0 1\n1 2\n2 3\n3 1\n"
}

fn rejected(text: &str) -> FormatError {
    match Graph::new(text.as_bytes()) {
        Ok(_) => panic!("the text was read as a graph"),
        Err(e) => e,
    }
}

#[test]
fn test_graph_new() {
    let graph = Graph::new(chain_with_cycle().as_bytes()).unwrap();
    assert_eq!(graph.node_count(), 4);
    assert_eq!(graph.neighbors(0), &vec![1]);
    assert_eq!(graph.neighbors(1), &vec![2]);
    assert_eq!(graph.neighbors(2), &vec![3]);
    assert_eq!(graph.neighbors(3), &vec![1]);
}

#[test]
fn test_calculate_degree_of_node() {
    let graph = Graph::new(chain_with_cycle().as_bytes()).unwrap();
    let mut sampler = Sampler::new(1);
    let degree = graph.calculate_degree(&mut sampler).unwrap();
    assert!(degree == 1 || degree == 2);
}

#[test]
fn degree_of_each_node() {
    let graph = Graph::new(chain_with_cycle().as_bytes()).unwrap();
    assert_eq!(graph.degree(0), 1);
    assert_eq!(graph.degree(3), 1);
    assert_eq!(graph.degree_centrality(), vec![1, 1, 1, 1]);
}

#[test]
fn empty_text_is_the_empty_graph() {
    let graph = Graph::new(b"").unwrap();
    assert_eq!(graph.node_count(), 0);
    assert_eq!(graph.degree_centrality(), Vec::<usize>::new());
    assert_eq!(graph.max_degree(), 0);
}

#[test]
fn zero_nodes_without_edges() {
    let graph = Graph::new(b"0\n").unwrap();
    assert_eq!(graph.node_count(), 0);
    assert_eq!(graph.degree_centrality(), Vec::<usize>::new());
}

#[test]
fn nodes_without_edges() {
    let graph = Graph::new(b"3").unwrap();
    assert_eq!(graph.node_count(), 3);
    assert_eq!(graph.degree_centrality(), vec![0, 0, 0]);
}

#[test]
fn edges_keep_their_order_and_repeat() {
    let graph = Graph::new(b"3\n0 2\n0 1\n0 2\n1 1\n0 0\n").unwrap();
    assert_eq!(graph.neighbors(0), &vec![2, 1, 2, 0]);
    assert_eq!(graph.neighbors(1), &vec![1]);
    assert_eq!(graph.neighbors(2), &Vec::<usize>::new());
    assert_eq!(graph.degree_centrality(), vec![4, 1, 0]);
    assert_eq!(graph.max_degree(), 4);
}

#[test]
fn edges_are_directed() {
    let graph = Graph::new(b"2\n0 1\n").unwrap();
    assert_eq!(graph.neighbors(0), &vec![1]);
    assert_eq!(graph.neighbors(1), &Vec::<usize>::new());
}

#[test]
fn blanks_and_line_endings_are_tolerated() {
    let graph = Graph::new(b"3\r\n  0\t 1  \r\n+2   00 ignored words\r\n1 2").unwrap();
    assert_eq!(graph.node_count(), 3);
    assert_eq!(graph.neighbors(0), &vec![1]);
    assert_eq!(graph.neighbors(1), &vec![2]);
    assert_eq!(graph.neighbors(2), &vec![0]);
}

#[test]
fn malformed_count_is_rejected() {
    let expected = FormatError { line: 1, kind: FormatErrorKind::MalformedCount };
    assert_eq!(rejected("four\n0 1\n"), expected);
    assert_eq!(rejected("\n"), expected);
    assert_eq!(rejected("-4\n"), expected);
    assert_eq!(rejected(" 4\n"), expected);
    assert_eq!(rejected("4 \n"), expected);
    assert_eq!(rejected("4 5\n"), expected);
    assert_eq!(rejected("4.0\n"), expected);
    assert_eq!(rejected("99999999999999999999999999\n"), expected);
}

#[test]
fn line_with_fewer_than_two_tokens_is_rejected() {
    assert_eq!(
        rejected("4\n0 1\n2\n"),
        FormatError { line: 3, kind: FormatErrorKind::MissingToken }
    );
}

#[test]
fn blank_line_is_rejected() {
    assert_eq!(
        rejected("4\n0 1\n\n1 2\n"),
        FormatError { line: 3, kind: FormatErrorKind::MissingToken }
    );
    assert_eq!(
        rejected("4\n0 1\n   \n"),
        FormatError { line: 3, kind: FormatErrorKind::MissingToken }
    );
    assert_eq!(
        rejected("4\n0 1\n\n"),
        FormatError { line: 3, kind: FormatErrorKind::MissingToken }
    );
}

#[test]
fn token_that_is_no_number_is_rejected() {
    assert_eq!(
        rejected("4\nzero 1\n"),
        FormatError { line: 2, kind: FormatErrorKind::MalformedNodeId }
    );
    assert_eq!(
        rejected("4\n0 1\n1 -2\n"),
        FormatError { line: 3, kind: FormatErrorKind::MalformedNodeId }
    );
    assert_eq!(
        rejected("4\n0 1.5\n"),
        FormatError { line: 2, kind: FormatErrorKind::MalformedNodeId }
    );
}

#[test]
fn node_out_of_range_is_rejected() {
    assert_eq!(
        rejected("4\n0 1\n1 2\n4 0\n"),
        FormatError { line: 4, kind: FormatErrorKind::NodeOutOfRange }
    );
    assert_eq!(
        rejected("4\n0 4\n"),
        FormatError { line: 2, kind: FormatErrorKind::NodeOutOfRange }
    );
    assert_eq!(
        rejected("0\n0 0\n"),
        FormatError { line: 2, kind: FormatErrorKind::NodeOutOfRange }
    );
}

#[test]
fn first_bad_line_is_reported() {
    assert_eq!(
        rejected("2\n0 1\n7 7\nx\n"),
        FormatError { line: 3, kind: FormatErrorKind::NodeOutOfRange }
    );
}

#[test]
fn every_endpoint_of_a_built_graph_is_a_node() {
    let graph = Graph::new(b"5\n0 4\n4 3\n3 3\n2 0\n2 4\n").unwrap();
    let n = graph.node_count();
    assert_eq!(n, 5);
    for u in 0..n {
        for v in graph.neighbors(u) {
            assert!(*v < n);
        }
    }
}
