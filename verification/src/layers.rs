//! Breadth-first search by layers: the vertices within a number of edges of
//! a start vertex, and those at an exact distance from it.

use crate::graph::{adjacency, neighbors, set_items, symmetric};
use std::collections::{HashMap, HashSet};
use vstd::prelude::*;

verus! {

broadcast use vstd::std_specs::hash::group_hash_axioms;

/// Every vertex that is a neighbour of some vertex of `from`.
pub open spec fn successors(adj: Map<u32, Set<u32>>, from: Set<u32>) -> Set<u32> {
    Set::new(|w: u32| exists|v: u32| from.contains(v) && #[trigger] neighbors(adj, v).contains(w))
}

/// The vertices that a walk of at most `k` edges reaches from `start`.
pub open spec fn within(adj: Map<u32, Set<u32>>, start: u32, k: nat) -> Set<u32>
    decreases k,
{
    if k == 0 {
        set![start]
    } else {
        within(adj, start, (k - 1) as nat).union(
            successors(adj, within(adj, start, (k - 1) as nat)),
        )
    }
}

/// The vertices whose shortest-path distance from `start` is exactly `k`.
pub open spec fn at_distance(adj: Map<u32, Set<u32>>, start: u32, k: nat) -> Set<u32> {
    if k == 0 {
        set![start]
    } else {
        within(adj, start, k).difference(within(adj, start, (k - 1) as nat))
    }
}

/// A layer of the search is found from the layer before it alone: its
/// vertices are the neighbours of that layer that no shorter walk reaches.
pub proof fn lemma_next_layer(adj: Map<u32, Set<u32>>, start: u32, k: nat)
    ensures
        within(adj, start, k + 1) == within(adj, start, k).union(
            successors(adj, at_distance(adj, start, k)),
        ),
        at_distance(adj, start, k + 1) == successors(adj, at_distance(adj, start, k)).difference(
            within(adj, start, k),
        ),
{
    let inner = within(adj, start, k);
    let layer = at_distance(adj, start, k);
    assert(within(adj, start, k + 1) == inner.union(successors(adj, inner)));
    assert forall|w: u32| #[trigger]
        successors(adj, inner).contains(w) implies inner.contains(w) || successors(
        adj,
        layer,
    ).contains(w) by {
        let v = choose|v: u32| inner.contains(v) && #[trigger] neighbors(adj, v).contains(w);
        if !layer.contains(v) {
            let before = within(adj, start, (k - 1) as nat);
            assert(before.contains(v));
            assert(successors(adj, before).contains(w));
        }
    }
    assert forall|w: u32| #[trigger]
        successors(adj, layer).contains(w) implies successors(adj, inner).contains(w) by {
        let v = choose|v: u32| layer.contains(v) && #[trigger] neighbors(adj, v).contains(w);
        assert(inner.contains(v));
    }
    assert(within(adj, start, k + 1) =~= inner.union(successors(adj, layer)));
    assert(at_distance(adj, start, k + 1) =~= successors(adj, layer).difference(inner));
}

/// Whether `walk` leads from `start` to `v`, each vertex a neighbour of the
/// one before it.
pub open spec fn walks_to(adj: Map<u32, Set<u32>>, start: u32, v: u32, walk: Seq<u32>) -> bool {
    &&& walk.len() >= 1
    &&& walk[0] == start
    &&& walk.last() == v
    &&& forall|i: int|
        0 <= i < walk.len() - 1 ==> neighbors(adj, #[trigger] walk[i]).contains(walk[i + 1])
}

/// Whether a walk of at most `k` edges leads from `start` to `v`.
pub open spec fn reachable_in(adj: Map<u32, Set<u32>>, start: u32, v: u32, k: nat) -> bool {
    exists|walk: Seq<u32>| #[trigger] walks_to(adj, start, v, walk) && walk.len() <= k + 1
}

/// The end of a walk of at most `k` edges lies within `k` of the start.
proof fn lemma_walk_is_within(adj: Map<u32, Set<u32>>, start: u32, v: u32, walk: Seq<u32>, k: nat)
    requires
        walks_to(adj, start, v, walk),
        walk.len() <= k + 1,
    ensures
        within(adj, start, k).contains(v),
    decreases walk.len(),
{
    if walk.len() == 1 {
        lemma_start_is_within(adj, start, k);
    } else {
        let shorter = walk.drop_last();
        let u = shorter.last();
        assert forall|i: int| 0 <= i < shorter.len() - 1 implies neighbors(
            adj,
            #[trigger] shorter[i],
        ).contains(shorter[i + 1]) by {
            assert(shorter[i] == walk[i]);
            assert(neighbors(adj, walk[i]).contains(walk[i + 1]));
        }
        assert(walks_to(adj, start, u, shorter));
        lemma_walk_is_within(adj, start, u, shorter, (k - 1) as nat);
        assert(u == walk[walk.len() - 2]);
        assert(neighbors(adj, walk[walk.len() - 2]).contains(walk[walk.len() - 2 + 1]));
        assert(successors(adj, within(adj, start, (k - 1) as nat)).contains(v));
    }
}

/// To a vertex within `k` of the start leads a walk of at most `k` edges.
proof fn lemma_within_has_walk(adj: Map<u32, Set<u32>>, start: u32, v: u32, k: nat)
    requires
        within(adj, start, k).contains(v),
    ensures
        reachable_in(adj, start, v, k),
    decreases k,
{
    if k == 0 {
        let walk = seq![start];
        assert(walks_to(adj, start, v, walk));
    } else if within(adj, start, (k - 1) as nat).contains(v) {
        lemma_within_has_walk(adj, start, v, (k - 1) as nat);
        let walk = choose|walk: Seq<u32>| #[trigger]
            walks_to(adj, start, v, walk) && walk.len() <= k;
        assert(walks_to(adj, start, v, walk) && walk.len() <= k + 1);
    } else {
        let inner = within(adj, start, (k - 1) as nat);
        assert(successors(adj, inner).contains(v));
        let u = choose|u: u32| inner.contains(u) && #[trigger] neighbors(adj, u).contains(v);
        lemma_within_has_walk(adj, start, u, (k - 1) as nat);
        let shorter = choose|walk: Seq<u32>| #[trigger]
            walks_to(adj, start, u, walk) && walk.len() <= k;
        let walk = shorter.push(v);
        assert forall|i: int| 0 <= i < walk.len() - 1 implies neighbors(
            adj,
            #[trigger] walk[i],
        ).contains(walk[i + 1]) by {
            if i < shorter.len() - 1 {
                assert(walk[i] == shorter[i]);
                assert(neighbors(adj, shorter[i]).contains(shorter[i + 1]));
            }
        }
        assert(walks_to(adj, start, v, walk) && walk.len() <= k + 1);
    }
}

/// A vertex lies at distance `k` from the start exactly if a walk of `k`
/// edges leads to it from the start and no walk of fewer edges does.
pub proof fn lemma_distance_is_shortest_walk(adj: Map<u32, Set<u32>>, start: u32, v: u32, k: nat)
    ensures
        at_distance(adj, start, k).contains(v) <==> reachable_in(adj, start, v, k) && (k > 0
            ==> !reachable_in(adj, start, v, (k - 1) as nat)),
{
    if within(adj, start, k).contains(v) {
        lemma_within_has_walk(adj, start, v, k);
    }
    if reachable_in(adj, start, v, k) {
        let walk = choose|walk: Seq<u32>| #[trigger]
            walks_to(adj, start, v, walk) && walk.len() <= k + 1;
        lemma_walk_is_within(adj, start, v, walk, k);
    }
    if k > 0 {
        let less = (k - 1) as nat;
        if within(adj, start, less).contains(v) {
            lemma_within_has_walk(adj, start, v, less);
        }
        if reachable_in(adj, start, v, less) {
            let walk = choose|walk: Seq<u32>| #[trigger]
                walks_to(adj, start, v, walk) && walk.len() <= less + 1;
            lemma_walk_is_within(adj, start, v, walk, less);
        }
    }
}

/// In a symmetric graph a walk leads back the way it came.
proof fn lemma_walk_back(adj: Map<u32, Set<u32>>, start: u32, v: u32, k: nat)
    requires
        symmetric(adj),
        reachable_in(adj, start, v, k),
    ensures
        reachable_in(adj, v, start, k),
{
    let walk = choose|walk: Seq<u32>| #[trigger]
        walks_to(adj, start, v, walk) && walk.len() <= k + 1;
    let back = walk.reverse();
    assert forall|i: int| 0 <= i < back.len() - 1 implies neighbors(adj, #[trigger] back[i]).contains(
        back[i + 1],
    ) by {
        let j = walk.len() - 2 - i;
        assert(back[i] == walk[j + 1]);
        assert(back[i + 1] == walk[j]);
        assert(neighbors(adj, walk[j]).contains(walk[j + 1]));
    }
    assert(walks_to(adj, v, start, back) && back.len() <= k + 1);
}

/// In a symmetric graph distance is mutual: `v` lies at distance `k` from
/// `u` exactly if `u` lies at distance `k` from `v`.
pub proof fn lemma_distance_is_mutual(adj: Map<u32, Set<u32>>, u: u32, v: u32, k: nat)
    requires
        symmetric(adj),
    ensures
        at_distance(adj, u, k).contains(v) <==> at_distance(adj, v, k).contains(u),
{
    lemma_distance_is_shortest_walk(adj, u, v, k);
    lemma_distance_is_shortest_walk(adj, v, u, k);
    if reachable_in(adj, u, v, k) {
        lemma_walk_back(adj, u, v, k);
    }
    if reachable_in(adj, v, u, k) {
        lemma_walk_back(adj, v, u, k);
    }
    if k > 0 {
        let less = (k - 1) as nat;
        if reachable_in(adj, u, v, less) {
            lemma_walk_back(adj, u, v, less);
        }
        if reachable_in(adj, v, u, less) {
            lemma_walk_back(adj, v, u, less);
        }
    }
}

/// More edges reach no fewer vertices.
pub proof fn lemma_within_grows(adj: Map<u32, Set<u32>>, start: u32, j: nat, k: nat)
    requires
        j <= k,
    ensures
        within(adj, start, j).subset_of(within(adj, start, k)),
    decreases k,
{
    if j < k {
        lemma_within_grows(adj, start, j, (k - 1) as nat);
    }
}

/// No vertex lies at two distances from the start.
pub proof fn lemma_distance_is_unique(adj: Map<u32, Set<u32>>, start: u32, j: nat, k: nat)
    requires
        j != k,
    ensures
        at_distance(adj, start, j).disjoint(at_distance(adj, start, k)),
{
    let (low, high) = if j < k {
        (j, k)
    } else {
        (k, j)
    };
    lemma_within_grows(adj, start, low, (high - 1) as nat);
    assert(at_distance(adj, start, low).subset_of(within(adj, start, low)));
}

/// The successors of a set grown by one vertex.
proof fn lemma_successors_insert(adj: Map<u32, Set<u32>>, from: Set<u32>, v: u32)
    ensures
        successors(adj, from.insert(v)) == successors(adj, from).union(neighbors(adj, v)),
{
    assert forall|w: u32|
        successors(adj, from.insert(v)).contains(w) <==> successors(adj, from).union(
            neighbors(adj, v),
        ).contains(w) by {
        if successors(adj, from.insert(v)).contains(w) {
            let u = choose|u: u32|
                from.insert(v).contains(u) && #[trigger] neighbors(adj, u).contains(w);
            if u != v {
                assert(from.contains(u));
            }
        }
        if successors(adj, from).contains(w) {
            let u = choose|u: u32| from.contains(u) && #[trigger] neighbors(adj, u).contains(w);
            assert(from.insert(v).contains(u));
        }
        if neighbors(adj, v).contains(w) {
            assert(from.insert(v).contains(v));
        }
    }
    assert(successors(adj, from.insert(v)) =~= successors(adj, from).union(neighbors(adj, v)));
}

/// Marks every item not yet visited and appends it to `next`.
fn visit_all(items: &Vec<u32>, visited: &mut HashSet<u32>, next: &mut Vec<u32>)
    requires
        old(next)@.no_duplicates(),
        old(next)@.to_set().subset_of(old(visited)@),
    ensures
        final(visited)@ == old(visited)@.union(items@.to_set()),
        final(next)@.to_set() == old(next)@.to_set().union(
            items@.to_set().difference(old(visited)@),
        ),
        final(next)@.no_duplicates(),
{
    let ghost seen = visited@;
    let ghost found = next@.to_set();
    let mut j: usize = 0;
    while j < items.len()
        invariant
            j <= items.len(),
            visited@ =~= seen.union(items@.take(j as int).to_set()),
            next@.to_set() =~= found.union(items@.take(j as int).to_set().difference(seen)),
            next@.no_duplicates(),
            found.subset_of(seen),
        decreases items.len() - j,
    {
        let w = items[j];
        proof {
            assert(items@.take(j + 1) =~= items@.take(j as int).push(w));
            items@.take(j as int).lemma_push_to_set_commute(w);
        }
        if !visited.contains(&w) {
            proof {
                next@.lemma_push_to_set_commute(w);
                assert(!next@.to_set().contains(w));
                assert(!next@.contains(w));
            }
            visited.insert(w);
            next.push(w);
        }
        j += 1;
    }
    assert(items@.take(items@.len() as int) =~= items@);
}

/// One step of the search: marks every neighbour of the frontier as visited
/// and returns those that had not been visited before.
pub(crate) fn expand(graph: &HashMap<u32, HashSet<u32>>, frontier: &Vec<u32>, visited: &mut HashSet<u32>) -> (next:
    Vec<u32>)
    ensures
        final(visited)@ == old(visited)@.union(successors(adjacency(graph@), frontier@.to_set())),
        next@.to_set() == successors(adjacency(graph@), frontier@.to_set()).difference(
            old(visited)@,
        ),
        next@.no_duplicates(),
{
    let ghost adj = adjacency(graph@);
    let ghost seen = visited@;
    let mut next: Vec<u32> = Vec::new();
    let mut i: usize = 0;
    assert(successors(adj, frontier@.take(0).to_set()) =~= Set::<u32>::empty());
    while i < frontier.len()
        invariant
            i <= frontier.len(),
            adj == adjacency(graph@),
            visited@ =~= seen.union(successors(adj, frontier@.take(i as int).to_set())),
            next@.to_set() =~= successors(adj, frontier@.take(i as int).to_set()).difference(seen),
            next@.no_duplicates(),
        decreases frontier.len() - i,
    {
        let v = frontier[i];
        proof {
            assert(frontier@.take(i + 1) =~= frontier@.take(i as int).push(v));
            frontier@.take(i as int).lemma_push_to_set_commute(v);
            lemma_successors_insert(adj, frontier@.take(i as int).to_set(), v);
        }
        match graph.get(&v) {
            Some(set) => {
                let items = set_items(set);
                visit_all(&items, visited, &mut next);
            },
            None => {},
        }
        i += 1;
    }
    assert(frontier@.take(frontier@.len() as int) =~= frontier@);
    next
}

/// The start lies within every distance of itself.
pub proof fn lemma_start_is_within(adj: Map<u32, Set<u32>>, start: u32, k: nat)
    ensures
        within(adj, start, k).contains(start),
    decreases k,
{
    if k > 0 {
        lemma_start_is_within(adj, start, (k - 1) as nat);
    }
}

/// Once a distance has no vertex, no greater distance has one.
pub proof fn lemma_layers_end(adj: Map<u32, Set<u32>>, start: u32, d: nat, k: nat)
    requires
        at_distance(adj, start, d + 1) == Set::<u32>::empty(),
        k > d,
    ensures
        at_distance(adj, start, k) == Set::<u32>::empty(),
    decreases k,
{
    if k > d + 1 {
        lemma_layers_end(adj, start, d, (k - 1) as nat);
        lemma_next_layer(adj, start, (k - 1) as nat);
        assert(successors(adj, Set::<u32>::empty()) =~= Set::<u32>::empty());
        assert(at_distance(adj, start, k) =~= Set::<u32>::empty());
    }
}

} // verus!
