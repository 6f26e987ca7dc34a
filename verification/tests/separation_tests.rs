use graph_stats::graph::build_graph;
use graph_stats::separation::{
    bfs_sixth_degree_paths, calculate_sixth_degree_stats, sixth_degree_frequencies,
    sixth_degree_stats_in_order,
};
use std::collections::{HashMap, HashSet};

fn create_linear_graph_with_sixth_degree() -> HashMap<u32, HashSet<u32>> {
    let mut graph = HashMap::new();
    for i in 1..7 {
        graph.insert(i, HashSet::from([i + 1]));
    }
    graph.insert(7, HashSet::new());
    graph
}

fn path_graph(n: u32) -> HashMap<u32, HashSet<u32>> {
    let edges: Vec<(u32, u32)> = (1..n).map(|i| (i, i + 1)).collect();
    build_graph(&edges)
}

#[test]
fn test_sixth_degree_paths_count() {
    let graph = create_linear_graph_with_sixth_degree();
    let expected_count = 1;
    let stats = calculate_sixth_degree_stats(&graph);
    let count = stats.total;
    assert_eq!(count, expected_count, "Expected one sixth-degree path");
}

#[test]
fn test_average_sixth_degree() {
    let graph = create_linear_graph_with_sixth_degree();
    let expected_average = 1.0 / graph.len() as f64;
    let stats = calculate_sixth_degree_stats(&graph);
    let average = stats.total as f64 / stats.vertices.len() as f64;
    assert!(
        (average - expected_average).abs() < f64::EPSILON,
        "Average sixth degree did not match expected value"
    );
}

#[test]
fn path_of_seven_ends_see_each_other() {
    let graph = path_graph(7);
    assert_eq!(bfs_sixth_degree_paths(&graph, 1), HashSet::from([7]));
    assert_eq!(bfs_sixth_degree_paths(&graph, 7), HashSet::from([1]));
    for v in 2..7 {
        assert!(bfs_sixth_degree_paths(&graph, v).is_empty());
    }
}

#[test]
fn longer_path_interior_vertices() {
    let graph = path_graph(13);
    assert_eq!(bfs_sixth_degree_paths(&graph, 7), HashSet::from([1, 13]));
    assert_eq!(bfs_sixth_degree_paths(&graph, 3), HashSet::from([9]));
    assert_eq!(bfs_sixth_degree_paths(&graph, 12), HashSet::from([6]));
}

#[test]
fn shortcut_shortens_the_distance() {
    let mut edges: Vec<(u32, u32)> = (1..7).map(|i| (i, i + 1)).collect();
    edges.push((1, 7));
    let graph = build_graph(&edges);
    assert!(bfs_sixth_degree_paths(&graph, 1).is_empty());
}

#[test]
fn cycle_of_twelve_has_one_opposite_vertex() {
    let mut edges: Vec<(u32, u32)> = (0..11).map(|i| (i, i + 1)).collect();
    edges.push((11, 0));
    let graph = build_graph(&edges);
    assert_eq!(bfs_sixth_degree_paths(&graph, 0), HashSet::from([6]));
    assert_eq!(bfs_sixth_degree_paths(&graph, 9), HashSet::from([3]));
}

#[test]
fn unknown_start_has_no_sixth_degree_vertices() {
    let graph = path_graph(7);
    assert!(bfs_sixth_degree_paths(&graph, 99).is_empty());
}

#[test]
fn other_component_is_not_reached() {
    let mut edges: Vec<(u32, u32)> = (1..7).map(|i| (i, i + 1)).collect();
    edges.push((100, 101));
    let graph = build_graph(&edges);
    assert_eq!(bfs_sixth_degree_paths(&graph, 1), HashSet::from([7]));
    assert!(bfs_sixth_degree_paths(&graph, 100).is_empty());
}

#[test]
fn stats_of_path_of_seven() {
    let graph = path_graph(7);
    let stats = calculate_sixth_degree_stats(&graph);
    assert_eq!(stats.total, 2);
    assert_eq!(stats.squares, 2);
    assert_eq!(stats.vertices.len(), 7);
    assert_eq!(stats.per_vertex.len(), 7);
    assert_eq!(stats.possible_pairs, 21);
    let mean = stats.total as f64 / stats.vertices.len() as f64;
    assert_eq!(mean, 2.0 / 7.0);
    for (v, c) in stats.vertices.iter().zip(stats.per_vertex.iter()) {
        let expected = if *v == 1 || *v == 7 { 1 } else { 0 };
        assert_eq!(*c, expected);
    }
}

#[test]
fn stats_in_order_follow_the_order() {
    let graph = path_graph(8);
    let order = vec![8, 1, 2, 5];
    let stats = sixth_degree_stats_in_order(&graph, &order);
    assert_eq!(stats.vertices, vec![8, 1, 2, 5]);
    assert_eq!(stats.per_vertex, vec![1, 1, 1, 0]);
    assert_eq!(stats.total, 3);
    assert_eq!(stats.squares, 3);
    assert_eq!(stats.possible_pairs, 6);
}

#[test]
fn stats_twice_are_the_same() {
    let graph = path_graph(9);
    let order = vec![1, 2, 3, 4, 5, 6, 7, 8, 9];
    let first = sixth_degree_stats_in_order(&graph, &order);
    let second = sixth_degree_stats_in_order(&graph, &order);
    assert_eq!(first.per_vertex, second.per_vertex);
    assert_eq!(first.total, second.total);
    assert_eq!(first.squares, second.squares);
    assert_eq!(first.total, 6);
}

#[test]
fn stats_of_empty_graph() {
    let graph: HashMap<u32, HashSet<u32>> = HashMap::new();
    let stats = calculate_sixth_degree_stats(&graph);
    assert_eq!(stats.total, 0);
    assert_eq!(stats.squares, 0);
    assert_eq!(stats.possible_pairs, 0);
    assert!(stats.vertices.is_empty());
    assert!(stats.per_vertex.is_empty());
    assert!(sixth_degree_frequencies(&stats.per_vertex).is_empty());
}

#[test]
fn stats_of_single_vertex() {
    let graph = build_graph(&[(3, 3)]);
    let stats = calculate_sixth_degree_stats(&graph);
    assert_eq!(stats.total, 0);
    assert_eq!(stats.possible_pairs, 0);
    assert_eq!(stats.per_vertex, vec![0]);
}

#[test]
fn frequencies_count_each_value() {
    let counts: Vec<usize> = vec![0, 2, 2, 5, 0, 2];
    assert_eq!(sixth_degree_frequencies(&counts), vec![2, 0, 3, 0, 0, 1]);
    let zeros: Vec<usize> = vec![0, 0, 0];
    assert_eq!(sixth_degree_frequencies(&zeros), vec![3]);
}

#[test]
fn mean_and_proportion_of_path_of_seven() {
    let graph = path_graph(7);
    let stats = calculate_sixth_degree_stats(&graph);
    assert_eq!(stats.mean(), Some((2, 7)));
    assert_eq!(stats.proportion_of_pairs(), Some((2, 21)));
}

#[test]
fn mean_and_proportion_are_undefined_without_pairs() {
    let empty: HashMap<u32, HashSet<u32>> = HashMap::new();
    let stats = calculate_sixth_degree_stats(&empty);
    assert_eq!(stats.mean(), None);
    assert_eq!(stats.proportion_of_pairs(), None);
    let single = build_graph(&[(3, 3)]);
    let stats = calculate_sixth_degree_stats(&single);
    assert_eq!(stats.mean(), Some((0, 1)));
    assert_eq!(stats.proportion_of_pairs(), None);
}

#[test]
fn variance_of_path_of_seven() {
    let graph = path_graph(7);
    let stats = calculate_sixth_degree_stats(&graph);
    assert_eq!(stats.variance(), Some((10, 49)));
    let mean = 2.0 / 7.0;
    let by_hand: f64 = stats
        .per_vertex
        .iter()
        .map(|&c| (c as f64 - mean) * (c as f64 - mean))
        .sum::<f64>()
        / 7.0;
    assert!((by_hand - 10.0 / 49.0).abs() < 1e-12);
}

#[test]
fn variance_is_undefined_without_vertices() {
    let empty: HashMap<u32, HashSet<u32>> = HashMap::new();
    assert_eq!(calculate_sixth_degree_stats(&empty).variance(), None);
}

#[test]
fn variance_of_equal_counts_is_zero() {
    let graph = path_graph(3);
    let stats = calculate_sixth_degree_stats(&graph);
    assert_eq!(stats.variance(), Some((0, 9)));
}
