//! The adjacency store: a map from each vertex to the set of its neighbours.

use std::collections::{HashMap, HashSet};
use vstd::prelude::*;
use vstd::std_specs::iter::IteratorSpec;

verus! {

broadcast use vstd::std_specs::hash::group_hash_axioms;

/// The mathematical model of a graph: each known vertex with its neighbour set.
pub open spec fn adjacency(graph: Map<u32, HashSet<u32>>) -> Map<u32, Set<u32>> {
    Map::new(|v: u32| graph.contains_key(v), |v: u32| graph[v]@)
}

/// The neighbours of `v`; a vertex that the graph does not know has none.
pub open spec fn neighbors(adj: Map<u32, Set<u32>>, v: u32) -> Set<u32> {
    if adj.contains_key(v) {
        adj[v]
    } else {
        Set::empty()
    }
}

/// Whether the edge joins `v` and `w`, in either direction.
pub open spec fn joins(edge: (u32, u32), v: u32, w: u32) -> bool {
    (edge.0 == v && edge.1 == w) || (edge.0 == w && edge.1 == v)
}

/// Whether `v` is an end of the edge.
pub open spec fn touches(edge: (u32, u32), v: u32) -> bool {
    edge.0 == v || edge.1 == v
}

/// Whether `v` is an end of one of the first `n` edges.
pub open spec fn endpoint_before(edges: Seq<(u32, u32)>, n: int, v: u32) -> bool {
    exists|i: int| 0 <= i < n && i < edges.len() && touches(#[trigger] edges[i], v)
}

/// Whether one of the first `n` edges joins `v` and `w`.
pub open spec fn linked_before(edges: Seq<(u32, u32)>, n: int, v: u32, w: u32) -> bool {
    exists|i: int| 0 <= i < n && i < edges.len() && joins(#[trigger] edges[i], v, w)
}

/// Adjacency is symmetric: whenever `w` is a neighbour of `v`, `v` is one of `w`.
pub open spec fn symmetric(adj: Map<u32, Set<u32>>) -> bool {
    forall|v: u32, w: u32| #[trigger]
        neighbors(adj, v).contains(w) ==> neighbors(adj, w).contains(v)
}

/// Records `to` as a neighbour of `from`, creating the entry of `from` if needed.
fn add_neighbor(graph: &mut HashMap<u32, HashSet<u32>>, from: u32, to: u32)
    ensures
        adjacency(final(graph)@) =~= adjacency(old(graph)@).insert(
            from,
            neighbors(adjacency(old(graph)@), from).insert(to),
        ),
{
    let mut set = match graph.remove(&from) {
        Some(existing) => existing,
        None => HashSet::new(),
    };
    set.insert(to);
    graph.insert(from, set);
}

/// Builds the graph of an edge list: every end of an edge becomes a vertex,
/// and each edge makes its two ends neighbours of each other.
pub fn build_graph(edges: &[(u32, u32)]) -> (graph: HashMap<u32, HashSet<u32>>)
    ensures
        forall|v: u32|
            adjacency(graph@).contains_key(v) <==> endpoint_before(edges@, edges@.len() as int, v),
        forall|v: u32, w: u32| #[trigger]
            neighbors(adjacency(graph@), v).contains(w) <==> linked_before(
                edges@,
                edges@.len() as int,
                v,
                w,
            ),
        forall|i: int|
            0 <= i < edges@.len() ==> neighbors(adjacency(graph@), (#[trigger] edges@[i]).0).contains(
                edges@[i].1,
            ) && neighbors(adjacency(graph@), edges@[i].1).contains(edges@[i].0),
        symmetric(adjacency(graph@)),
{
    let mut graph: HashMap<u32, HashSet<u32>> = HashMap::new();
    let mut i: usize = 0;
    while i < edges.len()
        invariant
            i <= edges.len(),
            forall|v: u32|
                adjacency(graph@).contains_key(v) <==> endpoint_before(edges@, i as int, v),
            forall|v: u32, w: u32| #[trigger]
                neighbors(adjacency(graph@), v).contains(w) <==> linked_before(
                    edges@,
                    i as int,
                    v,
                    w,
                ),
        decreases edges.len() - i,
    {
        let from = edges[i].0;
        let to = edges[i].1;
        let ghost before = adjacency(graph@);
        add_neighbor(&mut graph, from, to);
        let ghost middle = adjacency(graph@);
        add_neighbor(&mut graph, to, from);
        proof {
            let after = adjacency(graph@);
            let n = i as int;
            assert(joins(edges@[n], from, to));
            assert(edges@[n].0 == from && edges@[n].1 == to);
            assert forall|v: u32| after.contains_key(v) <==> endpoint_before(edges@, n + 1, v) by {
                if endpoint_before(edges@, n + 1, v) {
                    let k = choose|k: int|
                        0 <= k < n + 1 && k < edges@.len() && touches(#[trigger] edges@[k], v);
                    if k < n {
                        assert(endpoint_before(edges@, n, v));
                    }
                }
                if after.contains_key(v) {
                    if before.contains_key(v) {
                        assert(endpoint_before(edges@, n, v));
                        let k = choose|k: int|
                            0 <= k < n && k < edges@.len() && touches(#[trigger] edges@[k], v);
                        assert(0 <= k < n + 1 && touches(edges@[k], v));
                    } else {
                        assert(touches(edges@[n], v));
                    }
                }
            }
            assert forall|v: u32, w: u32| #[trigger]
                neighbors(after, v).contains(w) <==> linked_before(edges@, n + 1, v, w) by {
                if linked_before(edges@, n + 1, v, w) {
                    let k = choose|k: int|
                        0 <= k < n + 1 && k < edges@.len() && joins(#[trigger] edges@[k], v, w);
                    if k < n {
                        assert(linked_before(edges@, n, v, w));
                        assert(neighbors(before, v).contains(w));
                    }
                }
                if neighbors(after, v).contains(w) {
                    if neighbors(before, v).contains(w) {
                        assert(linked_before(edges@, n, v, w));
                        let k = choose|k: int|
                            0 <= k < n && k < edges@.len() && joins(#[trigger] edges@[k], v, w);
                        assert(0 <= k < n + 1 && joins(edges@[k], v, w));
                    } else {
                        assert(joins(edges@[n], v, w));
                    }
                }
            }
        }
        i += 1;
    }
    proof {
        let adj = adjacency(graph@);
        let n = edges@.len() as int;
        assert forall|k: int| 0 <= k < n implies neighbors(adj, (#[trigger] edges@[k]).0).contains(
            edges@[k].1,
        ) && neighbors(adj, edges@[k].1).contains(edges@[k].0) by {
            assert(joins(edges@[k], edges@[k].0, edges@[k].1));
            assert(joins(edges@[k], edges@[k].1, edges@[k].0));
            assert(linked_before(edges@, n, edges@[k].0, edges@[k].1));
            assert(linked_before(edges@, n, edges@[k].1, edges@[k].0));
        }
        assert forall|v: u32, w: u32| #[trigger]
            neighbors(adj, v).contains(w) implies neighbors(adj, w).contains(v) by {
            let k = choose|k: int| 0 <= k < n && k < edges@.len() && joins(#[trigger] edges@[k], v, w);
            assert(joins(edges@[k], w, v));
            assert(linked_before(edges@, n, w, v));
        }
    }
    graph
}

/// A neighbour set has finitely many members.
pub proof fn lemma_hash_set_finite(set: &HashSet<u32>)
    ensures
        set@.finite(),
{
    let all: Seq<u32> = set.iter().remaining().unref();
    assert(all.to_set() == set@);
    vstd::seq_lib::seq_to_set_is_finite(all);
}

/// There are no more vertices than identifiers.
pub proof fn lemma_vertex_count_bound(vertices: Set<u32>)
    requires
        vertices.finite(),
    ensures
        vertices.len() <= 0x1_0000_0000,
{
    let widen = |v: u32| v as int;
    let image = vertices.map(widen);
    assert(vstd::relations::injective_on(widen, vertices));
    vstd::set_lib::lemma_map_size(vertices, image, widen);
    vstd::set_lib::lemma_int_range(0, 0x1_0000_0000);
    assert(image.subset_of(vstd::set_lib::set_int_range(0, 0x1_0000_0000)));
    vstd::set_lib::lemma_len_subset(image, vstd::set_lib::set_int_range(0, 0x1_0000_0000));
}

/// Whether `order` lists every vertex of the graph exactly once.
pub open spec fn is_vertex_order(graph: Map<u32, HashSet<u32>>, order: Seq<u32>) -> bool {
    order.no_duplicates() && order.to_set() == graph.dom()
}

/// The members of a neighbour set as a list without repetition.
pub fn set_items(set: &HashSet<u32>) -> (items: Vec<u32>)
    ensures
        items@.no_duplicates(),
        items@.to_set() == set@,
{
    let mut items: Vec<u32> = Vec::new();
    let ghost all: Seq<u32> = set.iter().remaining().unref();
    for item in walk: set.iter()
        invariant
            all == walk.seq().unref(),
            walk.seq().no_duplicates(),
            all.to_set() == set@,
            items@ == all.take(walk.index()),
    {
        items.push(*item);
        assert(items@ =~= all.take(walk.index() + 1));
    }
    assert(items@ =~= all);
    assert(all.no_duplicates());
    items
}

/// The vertices of the graph, each once, in the order in which the map yields them.
pub fn vertex_order(graph: &HashMap<u32, HashSet<u32>>) -> (order: Vec<u32>)
    ensures
        is_vertex_order(graph@, order@),
{
    let mut order: Vec<u32> = Vec::new();
    let ghost all: Seq<u32> = graph.keys().remaining().unref();
    for vertex in walk: graph.keys()
        invariant
            all == walk.seq().unref(),
            walk.seq().no_duplicates(),
            all.to_set() == graph@.dom(),
            order@ == all.take(walk.index()),
    {
        order.push(*vertex);
        assert(order@ =~= all.take(walk.index() + 1));
    }
    assert(order@ =~= all);
    assert(all.no_duplicates());
    order
}

} // verus!
