use graph_stats::graph::{build_graph, set_items, vertex_order};
use std::collections::{HashMap, HashSet};

#[test]
fn test_read_and_build_graph() {
    let edges = vec![(1, 2), (2, 3), (3, 1)];

    let graph = build_graph(&edges);

    assert!(graph.get(&1).unwrap().contains(&2));
    assert!(graph.get(&2).unwrap().contains(&3));
    assert!(graph.get(&3).unwrap().contains(&1));
}

#[test]
fn build_graph_is_symmetric() {
    let edges = vec![(1, 2), (2, 3), (7, 9), (9, 2), (4, 4)];
    let graph = build_graph(&edges);
    for &(a, b) in edges.iter() {
        assert!(graph.get(&a).unwrap().contains(&b));
        assert!(graph.get(&b).unwrap().contains(&a));
    }
    for (v, set) in graph.iter() {
        for w in set.iter() {
            assert!(graph.get(w).unwrap().contains(v));
        }
    }
}

#[test]
fn build_graph_holds_exactly_the_edges() {
    let graph = build_graph(&[(1, 2), (2, 3), (1, 2), (3, 2)]);
    assert_eq!(graph.len(), 3);
    assert_eq!(graph.get(&1).unwrap(), &HashSet::from([2]));
    assert_eq!(graph.get(&2).unwrap(), &HashSet::from([1, 3]));
    assert_eq!(graph.get(&3).unwrap(), &HashSet::from([2]));
    assert!(graph.get(&4).is_none());
}

#[test]
fn build_graph_of_no_edges_is_empty() {
    let graph = build_graph(&[]);
    assert!(graph.is_empty());
}

#[test]
fn self_loop_makes_a_vertex_its_own_neighbour() {
    let graph = build_graph(&[(5, 5)]);
    assert_eq!(graph.len(), 1);
    assert_eq!(graph.get(&5).unwrap(), &HashSet::from([5]));
}

#[test]
fn set_items_lists_each_member_once() {
    let set: HashSet<u32> = HashSet::from([4, 8, 15, 16, 23, 42]);
    let mut items = set_items(&set);
    items.sort();
    assert_eq!(items, vec![4, 8, 15, 16, 23, 42]);
}

#[test]
fn vertex_order_lists_each_vertex_once() {
    let mut graph: HashMap<u32, HashSet<u32>> = HashMap::new();
    graph.insert(3, HashSet::new());
    graph.insert(1, HashSet::from([3]));
    graph.insert(2, HashSet::from([1]));
    let mut order = vertex_order(&graph);
    order.sort();
    assert_eq!(order, vec![1, 2, 3]);
}
