use social_graph::graph::Graph;

fn chain_with_cycle() -> Graph {
    Graph::new(b"4\n0 1\n1 2\n2 3\n3 1\n").unwrap()
}

fn diamond() -> Graph {
    // Two shortest paths lead from 0 to 3; the search meets 2 before 1.
    Graph::new(b"5\n0 2\n0 1\n1 3\n2 3\n3 0\n").unwrap()
}

#[test]
fn distances_from_the_first_node() {
    let graph = chain_with_cycle();
    let tree = graph.shortest_path_tree(0);
    assert_eq!(tree.source(), 0);
    assert_eq!(tree.node_count(), 4);
    assert_eq!(tree.distance_to(0), Some(0));
    assert_eq!(tree.distance_to(1), Some(1));
    assert_eq!(tree.distance_to(2), Some(2));
    assert_eq!(tree.distance_to(3), Some(3));
    assert_eq!(tree.parent_of(0), None);
    assert_eq!(tree.parent_of(1), Some(0));
    assert_eq!(tree.parent_of(2), Some(1));
    assert_eq!(tree.parent_of(3), Some(2));
    assert_eq!(tree.discovery_order(), &vec![0, 1, 2, 3]);
}

#[test]
fn nodes_that_the_root_does_not_reach() {
    let graph = chain_with_cycle();
    let tree = graph.shortest_path_tree(2);
    assert_eq!(tree.distance_to(0), None);
    assert_eq!(tree.parent_of(0), None);
    assert_eq!(tree.distance_to(2), Some(0));
    assert_eq!(tree.distance_to(3), Some(1));
    assert_eq!(tree.distance_to(1), Some(2));
    assert_eq!(tree.discovery_order(), &vec![2, 3, 1]);
    assert_eq!(tree.distance_to(4), None);
    assert_eq!(tree.parent_of(17), None);
}

#[test]
fn distance_is_one_more_than_the_parents() {
    let graph = diamond();
    for source in 0..graph.node_count() {
        let tree = graph.shortest_path_tree(source);
        assert_eq!(tree.distance_to(source), Some(0));
        for node in 0..graph.node_count() {
            match tree.parent_of(node) {
                Some(parent) => {
                    assert_eq!(tree.distance_to(node), Some(tree.distance_to(parent).unwrap() + 1));
                    assert!(graph.neighbors(parent).contains(&node));
                },
                None => assert!(node == source || tree.distance_to(node).is_none()),
            }
        }
    }
}

#[test]
fn parent_is_the_first_discoverer() {
    let graph = diamond();
    let tree = graph.shortest_path_tree(0);
    assert_eq!(tree.discovery_order(), &vec![0, 2, 1, 3]);
    assert_eq!(tree.parent_of(3), Some(2));
    assert_eq!(tree.distance_to(3), Some(2));
    assert_eq!(tree.distance_to(4), None);
}

#[test]
fn path_runs_from_the_root_to_the_target() {
    let graph = chain_with_cycle();
    let tree = graph.shortest_path_tree(0);
    assert_eq!(tree.reconstruct_path(3), Some(vec![0, 1, 2, 3]));
    assert_eq!(tree.reconstruct_path(1), Some(vec![0, 1]));
    assert_eq!(tree.reconstruct_path(0), Some(vec![0]));
    for target in 0..4 {
        let path = tree.reconstruct_path(target).unwrap();
        assert_eq!(path[0], 0);
        assert_eq!(path[path.len() - 1], target);
        assert_eq!(path.len(), tree.distance_to(target).unwrap() + 1);
    }
}

#[test]
fn no_path_to_a_node_out_of_reach() {
    let graph = chain_with_cycle();
    let tree = graph.shortest_path_tree(1);
    assert_eq!(tree.reconstruct_path(0), None);
    assert_eq!(tree.reconstruct_path(4), None);
    assert_eq!(tree.reconstruct_path(3), Some(vec![1, 2, 3]));
    assert_eq!(tree.reconstruct_path(1), Some(vec![1]));
}

#[test]
fn bfs_follows_the_first_discovery() {
    let graph = diamond();
    assert_eq!(graph.bfs(0, 3), Some(vec![0, 2, 3]));
    assert_eq!(graph.bfs(1, 2), Some(vec![1, 3, 0, 2]));
    assert_eq!(graph.bfs(3, 3), Some(vec![3]));
    assert_eq!(graph.bfs(0, 4), None);
    assert_eq!(graph.bfs(4, 0), None);
    assert_eq!(graph.bfs(4, 4), Some(vec![4]));
    assert_eq!(graph.bfs(0, 5), None);
}

#[test]
fn bfs_takes_a_self_loop_for_no_step() {
    let graph = Graph::new(b"2\n0 0\n0 1\n1 1\n").unwrap();
    assert_eq!(graph.bfs(0, 0), Some(vec![0]));
    assert_eq!(graph.bfs(0, 1), Some(vec![0, 1]));
    assert_eq!(graph.bfs(1, 0), None);
}

#[test]
fn diameter_of_the_chain_with_cycle() {
    assert_eq!(chain_with_cycle().graph_diameter(), 3);
}

#[test]
fn diameter_of_a_single_node() {
    let graph = Graph::new(b"1\n").unwrap();
    assert_eq!(graph.graph_diameter(), 0);
}

#[test]
fn diameter_of_the_empty_graph() {
    let graph = Graph::new(b"0\n").unwrap();
    assert_eq!(graph.graph_diameter(), 0);
    assert_eq!(Graph::new(b"").unwrap().graph_diameter(), 0);
}

#[test]
fn diameter_without_edges() {
    let graph = Graph::new(b"6\n").unwrap();
    assert_eq!(graph.graph_diameter(), 0);
}

#[test]
fn diameter_is_the_longest_shortest_path() {
    assert_eq!(diamond().graph_diameter(), 3);
    let ring = Graph::new(b"5\n0 1\n1 2\n2 3\n3 4\n4 0\n").unwrap();
    assert_eq!(ring.graph_diameter(), 4);
    let both_ways = Graph::new(b"4\n0 1\n1 0\n1 2\n2 1\n2 3\n3 2\n0 3\n3 0\n").unwrap();
    assert_eq!(both_ways.graph_diameter(), 2);
}

#[test]
fn chain_with_cycle_scenario() {
    let graph = Graph::new(b"4\n0 1\n1 2\n2 3\n3 1\n").unwrap();
    let adjacency: Vec<Vec<usize>> =
        (0..graph.node_count()).map(|u| graph.neighbors(u).clone()).collect();
    assert_eq!(adjacency, vec![vec![1], vec![2], vec![3], vec![1]]);
    assert_eq!(graph.degree(0), 1);
    let tree = graph.shortest_path_tree(0);
    let distances: Vec<Option<usize>> = (0..4).map(|v| tree.distance_to(v)).collect();
    assert_eq!(distances, vec![Some(0), Some(1), Some(2), Some(3)]);
    assert_eq!(graph.graph_diameter(), 3);
}
