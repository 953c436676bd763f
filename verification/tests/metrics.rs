use social_graph::clustering::{list_contains, Clustering};
use social_graph::error::EmptyGraphError;
use social_graph::graph::Graph;
use social_graph::metrics::{degree_sum, DistanceSummary};
use social_graph::sampler::Sampler;

fn ring(n: usize) -> Graph {
    let mut text = format!("{}\n", n);
    for u in 0..n {
        text.push_str(&format!("{} {}\n", u, (u + 1) % n));
    }
    Graph::new(text.as_bytes()).unwrap()
}

fn coefficient(clustering: &Clustering) -> f32 {
    if clustering.node_count == 0 {
        return 0.0;
    }
    let mut total: f32 = 0.0;
    for local in &clustering.locals {
        total += local.linked as f32 / local.possible as f32;
    }
    total / clustering.node_count as f32
}

fn mean(summary: &DistanceSummary) -> f32 {
    summary.total_nodes as f32 / summary.recorded as f32
}

#[test]
fn test_main() {
    let data = ring(9);
    let mut sampler = Sampler::new(2024);
    let summary = data.average_distance(&mut sampler, 3000).unwrap();
    let avg_distance = mean(&summary);
    println!("Average degrees of separation (distance between two users): {}", avg_distance);

    let vector_of_nodes = data.sample_degree(&mut sampler, 500).unwrap();
    assert_eq!(vector_of_nodes.len(), 500);
    let sum = degree_sum(&vector_of_nodes);
    let average_degree_vertex = sum as f32 / vector_of_nodes.len() as f32;
    let clustering_coefficient = coefficient(&data.clustering_coefficient());
    let max_degree = data.max_degree();
    let graph_diameter = data.graph_diameter();

    println!("Random 500 nodes and the degree value they each have");
    println!("{:?}", vector_of_nodes);
    println!("Average degree of all the nodes: {}", average_degree_vertex);
    println!("The clustering coefficient of the network is {:.4}.", clustering_coefficient);
    println!("The most connected user has {} connections.", max_degree);
    println!("The diameter of the graph is {} steps.", graph_diameter);
}

#[test]
fn test_average_distance() {
    let graph = ring(9);
    let mut sampler = Sampler::new(7);
    let summary = graph.average_distance(&mut sampler, 3000).unwrap();
    assert_eq!(summary.recorded, 3000);
    let avg_distance = mean(&summary);
    assert!((avg_distance - 5.0).abs() < 1.0);
}

#[test]
fn same_seed_same_mean() {
    let graph = Graph::new(b"6\n0 1\n1 2\n2 0\n3 4\n4 5\n5 3\n0 3\n").unwrap();
    let mut first = Sampler::new(99);
    let mut second = Sampler::new(99);
    let a = graph.average_distance(&mut first, 200).unwrap();
    let b = graph.average_distance(&mut second, 200).unwrap();
    assert_eq!(a.total_nodes, b.total_nodes);
    assert_eq!(a.recorded, b.recorded);
    assert!(a.recorded > 0);
    assert_eq!(mean(&a), mean(&b));
}

#[test]
fn same_seed_same_nodes() {
    let mut first = Sampler::new(5);
    let mut second = Sampler::new(5);
    assert_eq!(first.pick_many(1000, 50), second.pick_many(1000, 50));
    assert_eq!(first.pick_pairs(10, 20), second.pick_pairs(10, 20));
}

#[test]
fn drawn_nodes_are_nodes() {
    let mut sampler = Sampler::new(3);
    for n in 1..40 {
        for _ in 0..25 {
            assert!(sampler.pick(n).unwrap() < n);
        }
    }
    assert_eq!(sampler.pick(1), Ok(0));
}

#[test]
fn every_node_is_drawn() {
    let mut sampler = Sampler::new(11);
    let mut seen = vec![false; 4];
    for node in sampler.pick_many(4, 400).unwrap() {
        seen[node] = true;
    }
    assert_eq!(seen, vec![true; 4]);
}

#[test]
fn nothing_to_draw_from_an_empty_graph() {
    let mut sampler = Sampler::new(0);
    assert_eq!(sampler.pick(0), Err(EmptyGraphError));
    assert_eq!(sampler.pick_many(0, 3), Err(EmptyGraphError));
    assert_eq!(sampler.pick_pairs(0, 1), Err(EmptyGraphError));
    assert_eq!(sampler.pick_many(0, 0), Ok(vec![]));
    assert_eq!(sampler.pick_pairs(0, 0), Ok(vec![]));

    let empty = Graph::new(b"0\n").unwrap();
    assert_eq!(empty.calculate_degree(&mut sampler), Err(EmptyGraphError));
    assert_eq!(empty.sample_degree(&mut sampler, 5), Err(EmptyGraphError));
    assert_eq!(empty.sample_degree(&mut sampler, 0), Ok(vec![]));
    assert!(empty.average_distance(&mut sampler, 10).is_err());
    let none = empty.average_distance(&mut sampler, 0).unwrap();
    assert_eq!(none.total_nodes, 0);
    assert_eq!(none.recorded, 0);
}

#[test]
fn sampled_degrees_are_degrees() {
    let graph = Graph::new(b"3\n0 1\n0 2\n0 0\n1 2\n").unwrap();
    let mut sampler = Sampler::new(42);
    let degrees = graph.sample_degree(&mut sampler, 300).unwrap();
    assert_eq!(degrees.len(), 300);
    for d in &degrees {
        assert!(*d == 3 || *d == 1 || *d == 0);
    }
    assert!(degrees.contains(&3) && degrees.contains(&1) && degrees.contains(&0));
}

#[test]
fn degrees_of_given_nodes() {
    let graph = Graph::new(b"3\n0 1\n0 2\n0 0\n1 2\n").unwrap();
    assert_eq!(graph.degrees_of(&vec![2, 0, 0, 1]), vec![0, 3, 3, 1]);
    assert_eq!(graph.degrees_of(&vec![]), Vec::<usize>::new());
    assert_eq!(degree_sum(&vec![0, 3, 3, 1]), 7);
    assert_eq!(degree_sum(&vec![]), 0);
    assert_eq!(degree_sum(&vec![usize::MAX, usize::MAX]), 2 * (usize::MAX as u128));
    assert_eq!(graph.max_degree(), 3);
}

#[test]
fn summary_counts_the_nodes_of_each_path() {
    let graph = Graph::new(b"4\n0 1\n1 2\n2 3\n3 1\n").unwrap();
    let pairs = vec![(0, 3), (0, 0), (1, 0), (3, 2), (2, 2), (3, 0)];
    let summary = graph.distance_summary(&pairs);
    // Paths of 4, 1, 3 and 1 nodes; node 0 is out of reach of 1 and of 3.
    assert_eq!(summary.total_nodes, 9);
    assert_eq!(summary.recorded, 4);
    let nothing = graph.distance_summary(&vec![]);
    assert_eq!(nothing.total_nodes, 0);
    assert_eq!(nothing.recorded, 0);
}

#[test]
fn clustering_of_the_empty_graph_is_zero() {
    let graph = Graph::new(b"0\n").unwrap();
    let clustering = graph.clustering_coefficient();
    assert_eq!(clustering.node_count, 0);
    assert!(clustering.locals.is_empty());
    assert_eq!(coefficient(&clustering), 0.0);
}

#[test]
fn clustering_without_eligible_node_is_zero() {
    let clustering = ring(5).clustering_coefficient();
    assert_eq!(clustering.node_count, 5);
    assert!(clustering.locals.is_empty());
    assert_eq!(coefficient(&clustering), 0.0);
}

#[test]
fn clustering_counts_ordered_pairs() {
    let graph = Graph::new(b"3\n0 1\n0 2\n1 2\n2 1\n").unwrap();
    let clustering = graph.clustering_coefficient();
    assert_eq!(clustering.node_count, 3);
    assert_eq!(clustering.locals.len(), 1);
    assert_eq!(clustering.locals[0].node, 0);
    assert_eq!(clustering.locals[0].linked, 2);
    assert_eq!(clustering.locals[0].possible, 2);
    assert!((coefficient(&clustering) - 1.0 / 3.0).abs() < 1e-6);
}

#[test]
fn clustering_divides_by_all_nodes() {
    // Nodes 0 and 1 are eligible, nodes 2, 3 and 4 are not.
    let graph = Graph::new(b"5\n0 1\n0 2\n0 3\n1 2\n1 3\n2 3\n").unwrap();
    let clustering = graph.clustering_coefficient();
    assert_eq!(clustering.node_count, 5);
    assert_eq!(clustering.locals.len(), 2);
    assert_eq!(clustering.locals[0].node, 0);
    assert_eq!(clustering.locals[0].linked, 3);
    assert_eq!(clustering.locals[0].possible, 6);
    assert_eq!(clustering.locals[1].node, 1);
    assert_eq!(clustering.locals[1].linked, 1);
    assert_eq!(clustering.locals[1].possible, 2);
    assert!((coefficient(&clustering) - 0.2).abs() < 1e-6);
}

#[test]
fn clustering_lies_between_zero_and_one_without_self_loops() {
    let graph = Graph::new(b"4\n0 1\n0 2\n0 3\n1 0\n1 2\n1 3\n2 0\n2 1\n2 3\n3 0\n3 1\n3 2\n").unwrap();
    let clustering = graph.clustering_coefficient();
    for local in &clustering.locals {
        assert!(local.linked <= local.possible);
    }
    assert_eq!(clustering.locals.len(), 4);
    assert_eq!(clustering.locals[2].linked, 6);
    assert_eq!(coefficient(&clustering), 1.0);
}

#[test]
fn clustering_counts_repeated_and_looping_successors() {
    // Both successors of node 0 are node 0 itself, which has an edge to itself.
    let graph = Graph::new(b"1\n0 0\n0 0\n").unwrap();
    let clustering = graph.clustering_coefficient();
    assert_eq!(clustering.locals.len(), 1);
    assert_eq!(clustering.locals[0].linked, 4);
    assert_eq!(clustering.locals[0].possible, 2);
    assert_eq!(coefficient(&clustering), 2.0);
}

#[test]
fn linked_pairs_among_given_nodes() {
    let graph = Graph::new(b"3\n0 1\n1 2\n2 0\n2 2\n").unwrap();
    assert_eq!(graph.linked_pair_count(&vec![0, 1, 2]), 4);
    assert_eq!(graph.linked_pair_count(&vec![2, 2]), 4);
    assert_eq!(graph.linked_pair_count(&vec![0, 0]), 0);
    assert_eq!(graph.linked_pair_count(&vec![]), 0);
    assert!(list_contains(&vec![4, 5, 6], 6));
    assert!(!list_contains(&vec![4, 5, 6], 7));
    assert!(!list_contains(&vec![], 0));
}

#[test]
fn empty_graph_scenario() {
    let graph = Graph::new(b"0\n").unwrap();
    assert_eq!(graph.degree_centrality(), Vec::<usize>::new());
    assert_eq!(graph.graph_diameter(), 0);
    assert_eq!(coefficient(&graph.clustering_coefficient()), 0.0);
}

#[test]
fn summary_of_given_trials_is_exact() {
    let graph = ring(9);
    let pairs: Vec<(usize, usize)> = (0..9).map(|t| (0, t)).collect();
    let summary = graph.distance_summary(&pairs);
    assert_eq!(summary, DistanceSummary { total_nodes: 45, recorded: 9 });
    assert_eq!(mean(&summary), 5.0);
    assert_eq!(graph.distance_summary(&pairs), summary);
}

#[test]
fn other_seed_other_nodes() {
    let mut first = Sampler::new(1);
    let mut second = Sampler::new(2);
    assert_ne!(first.pick_many(1_000_000, 20), second.pick_many(1_000_000, 20));
}
