use graph_stats::graph::build_graph;
use graph_stats::distance::{
    average_distance, average_distance_in_order, bfs_directed, distances_from, AverageDistance,
};
use std::collections::{HashMap, HashSet};

fn path(n: u32) -> HashMap<u32, HashSet<u32>> {
    let edges: Vec<(u32, u32)> = (1..n).map(|i| (i, i + 1)).collect();
    build_graph(&edges)
}

#[test]
fn distances_along_a_path() {
    let graph = path(5);
    let distances = bfs_directed(&graph, 2);
    let expected: HashMap<u32, usize> = HashMap::from([(1, 1), (3, 1), (4, 2), (5, 3)]);
    assert_eq!(distances, expected);
}

#[test]
fn start_has_no_entry_even_with_a_self_loop() {
    let graph = build_graph(&[(1, 1), (1, 2), (2, 3)]);
    let distances = bfs_directed(&graph, 1);
    let expected: HashMap<u32, usize> = HashMap::from([(2, 1), (3, 2)]);
    assert_eq!(distances, expected);
}

#[test]
fn other_components_are_absent() {
    let graph = build_graph(&[(1, 2), (3, 4)]);
    let distances = bfs_directed(&graph, 1);
    let expected: HashMap<u32, usize> = HashMap::from([(2, 1)]);
    assert_eq!(distances, expected);
    assert!(bfs_directed(&graph, 9).is_empty());
}

#[test]
fn shortest_of_two_ways_counts() {
    // a cycle of five: the farthest vertex is two steps away
    let graph = build_graph(&[(0, 1), (1, 2), (2, 3), (3, 4), (4, 0)]);
    let distances = bfs_directed(&graph, 0);
    let expected: HashMap<u32, usize> = HashMap::from([(1, 1), (4, 1), (2, 2), (3, 2)]);
    assert_eq!(distances, expected);
}

#[test]
fn profile_of_a_path_end() {
    let graph = path(6);
    let profile = distances_from(&graph, 1);
    assert_eq!(profile.farthest, 5);
    assert_eq!(profile.reached, 5);
    assert_eq!(profile.total, 15);
    assert_eq!(profile.distances.len(), 5);
    assert_eq!(profile.distances.get(&6), Some(&5));
}

#[test]
fn profile_of_an_isolated_start() {
    let graph = path(3);
    let profile = distances_from(&graph, 42);
    assert_eq!(profile.farthest, 0);
    assert_eq!(profile.reached, 0);
    assert_eq!(profile.total, 0);
    assert!(profile.distances.is_empty());
}

#[test]
fn average_distance_of_paths() {
    for n in 2u32..9 {
        let graph = path(n);
        let avg = average_distance(&graph);
        let mut sum: u128 = 0;
        for a in 1..=n {
            for b in 1..=n {
                if a != b {
                    sum += (if a > b { a - b } else { b - a }) as u128;
                }
            }
        }
        assert_eq!(avg.total, sum);
        assert_eq!(avg.pairs, (n as u128) * (n as u128 - 1));
    }
    let avg = average_distance(&path(4));
    assert_eq!(avg, AverageDistance { total: 20, pairs: 12 });
    assert_eq!(avg.fraction(), (20, 12));
    let value = avg.total as f64 / avg.pairs as f64;
    assert!((value - 5.0 / 3.0).abs() < 1e-12);
}

#[test]
fn average_distance_without_reachable_pairs_is_zero() {
    let empty: HashMap<u32, HashSet<u32>> = HashMap::new();
    let avg = average_distance(&empty);
    assert_eq!(avg, AverageDistance { total: 0, pairs: 0 });
    assert_eq!(avg.fraction(), (0, 1));
    let mut lonely: HashMap<u32, HashSet<u32>> = HashMap::new();
    lonely.insert(1, HashSet::new());
    lonely.insert(2, HashSet::new());
    assert_eq!(average_distance(&lonely).fraction(), (0, 1));
}

#[test]
fn average_distance_in_a_given_order() {
    let graph = build_graph(&[(1, 2), (2, 3), (10, 11)]);
    let avg = average_distance_in_order(&graph, &vec![1, 10]);
    assert_eq!(avg, AverageDistance { total: 4, pairs: 3 });
    let again = average_distance_in_order(&graph, &vec![1, 10]);
    assert_eq!(avg, again);
}

#[test]
fn average_distance_twice_is_the_same() {
    let graph = build_graph(&[(1, 2), (2, 3), (3, 4), (4, 1), (4, 5)]);
    assert_eq!(average_distance(&graph), average_distance(&graph));
}
