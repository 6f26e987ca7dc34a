use graph_stats::graph::build_graph;
use graph_stats::similarity::{
    find_extreme_pairs, find_extreme_pairs_in_order, jaccard_similarity, Similarity,
};
use std::collections::{HashMap, HashSet};

#[test]
fn test_jaccard_similarity() {
    let set1: HashSet<u32> = HashSet::from([1, 2, 3]);
    let set2: HashSet<u32> = HashSet::from([2, 3, 4]);

    let similarity = jaccard_similarity(&set1, &set2);
    assert_eq!(similarity, Similarity { shared: 2, total: 4 });
    let jaccard = similarity.shared as f64 / similarity.total as f64;
    assert_eq!(jaccard, 0.5);
}

#[test]
fn jaccard_of_disjoint_and_equal_sets() {
    let a: HashSet<u32> = HashSet::from([1, 2]);
    let b: HashSet<u32> = HashSet::from([3, 4, 5]);
    assert_eq!(jaccard_similarity(&a, &b), Similarity { shared: 0, total: 5 });
    assert_eq!(jaccard_similarity(&a, &a), Similarity { shared: 2, total: 2 });
}

#[test]
fn jaccard_of_two_empty_sets_is_undefined() {
    let a: HashSet<u32> = HashSet::new();
    let b: HashSet<u32> = HashSet::new();
    assert_eq!(jaccard_similarity(&a, &b), Similarity { shared: 0, total: 0 });
}

#[test]
fn disjoint_edges_keep_both_initial_pairs() {
    let graph = build_graph(&[(1, 2), (3, 4), (5, 6)]);
    let (most, least) = find_extreme_pairs(&graph);
    assert_eq!(most, (0, 0, Similarity { shared: 0, total: 1 }));
    assert_eq!(least, (0, 0, Similarity { shared: 1, total: 1 }));
}

#[test]
fn empty_graph_keeps_both_initial_pairs() {
    let graph: HashMap<u32, HashSet<u32>> = HashMap::new();
    let (most, least) = find_extreme_pairs(&graph);
    assert_eq!(most, (0, 0, Similarity { shared: 0, total: 1 }));
    assert_eq!(least, (0, 0, Similarity { shared: 1, total: 1 }));
}

#[test]
fn extremes_in_a_given_order() {
    // 1: {3, 4, 5}, 2: {3, 4}, 6: {5}
    let graph = build_graph(&[(1, 3), (1, 4), (1, 5), (2, 3), (2, 4), (6, 5)]);
    let order = vec![1, 2, 6, 3, 4, 5];
    let (most, least) = find_extreme_pairs_in_order(&graph, &order);
    // 3 and 4 both have the neighbours {1, 2}: coefficient 1.
    assert_eq!(most, (3, 4, Similarity { shared: 2, total: 2 }));
    // 1 and 6 share 5 out of {3, 4, 5}: coefficient 1/3, the smallest above 0.
    assert_eq!(least, (1, 6, Similarity { shared: 1, total: 3 }));
}

#[test]
fn first_of_equal_pairs_wins() {
    // 1, 2 and 3 all have the single neighbour 9.
    let graph = build_graph(&[(1, 9), (2, 9), (3, 9)]);
    let (most, least) = find_extreme_pairs_in_order(&graph, &vec![3, 1, 2]);
    assert_eq!(most, (3, 1, Similarity { shared: 1, total: 1 }));
    assert_eq!(least, (0, 0, Similarity { shared: 1, total: 1 }));
    let (most, _) = find_extreme_pairs_in_order(&graph, &vec![2, 3, 1]);
    assert_eq!(most, (2, 3, Similarity { shared: 1, total: 1 }));
}

#[test]
fn extremes_twice_are_the_same() {
    let graph = build_graph(&[(1, 3), (1, 4), (2, 3), (2, 5), (6, 5)]);
    let order = vec![1, 2, 3, 4, 5, 6];
    let first = find_extreme_pairs_in_order(&graph, &order);
    let second = find_extreme_pairs_in_order(&graph, &order);
    assert_eq!(first, second);
}

#[test]
fn most_dissimilar_is_never_zero() {
    let graph = build_graph(&[(1, 3), (1, 4), (2, 3), (2, 5), (6, 5), (7, 8)]);
    let (_, least) = find_extreme_pairs(&graph);
    assert!(least.2.shared > 0);
    assert_eq!(least.2, Similarity { shared: 1, total: 3 });
}
