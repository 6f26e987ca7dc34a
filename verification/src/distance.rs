//! Shortest-path distances from a vertex to every vertex it reaches, and
//! the average distance between the vertices of a graph.

use crate::graph::{adjacency, is_vertex_order, lemma_vertex_count_bound, neighbors, vertex_order};
use crate::layers::{
    at_distance, expand, lemma_layers_end, lemma_next_layer, lemma_start_is_within, successors,
    within,
};
use crate::separation::{is_sixth_degree_stats, SixthDegreeStats};
use crate::sums::{lemma_sum_any_order, sum_over};
use std::collections::{HashMap, HashSet};
use vstd::prelude::*;

verus! {

broadcast use vstd::std_specs::hash::group_hash_axioms;

/// The sum of the distances of the vertices that lie at distance one to `k`
/// from `start`.
pub open spec fn distance_sum(adj: Map<u32, Set<u32>>, start: u32, k: nat) -> nat
    decreases k,
{
    if k == 0 {
        0
    } else {
        distance_sum(adj, start, (k - 1) as nat) + k * at_distance(adj, start, k).len()
    }
}

/// The number of vertices that lie at distance one to `k` from `start`.
pub open spec fn reach_count(adj: Map<u32, Set<u32>>, start: u32, k: nat) -> nat
    decreases k,
{
    if k == 0 {
        0
    } else {
        reach_count(adj, start, (k - 1) as nat) + at_distance(adj, start, k).len()
    }
}

/// Whether `d` is the greatest distance at which a vertex lies from `start`:
/// some vertex lies at every distance up to `d`, and none at `d + 1`.
pub open spec fn is_farthest(adj: Map<u32, Set<u32>>, start: u32, d: nat) -> bool {
    &&& at_distance(adj, start, d + 1) == Set::<u32>::empty()
    &&& forall|k: nat| k <= d ==> #[trigger] at_distance(adj, start, k) != Set::<u32>::empty()
}

/// The greatest distance at which a vertex lies from `start`.
pub open spec fn farthest(adj: Map<u32, Set<u32>>, start: u32) -> nat {
    choose|d: nat| is_farthest(adj, start, d)
}

/// The sum of the distances from `start` to every vertex it reaches.
pub open spec fn total_distance(adj: Map<u32, Set<u32>>, start: u32) -> nat {
    distance_sum(adj, start, farthest(adj, start))
}

/// The number of vertices other than `start` that `start` reaches.
pub open spec fn reachable_count(adj: Map<u32, Set<u32>>, start: u32) -> nat {
    reach_count(adj, start, farthest(adj, start))
}

/// The greatest distance from `start` is unique.
pub proof fn lemma_farthest_unique(adj: Map<u32, Set<u32>>, start: u32, d: nat)
    requires
        is_farthest(adj, start, d),
    ensures
        farthest(adj, start) == d,
{
    let other = farthest(adj, start);
    assert(is_farthest(adj, start, other));
    if other < d {
        assert(at_distance(adj, start, other + 1) != Set::<u32>::empty());
    }
    if d < other {
        assert(at_distance(adj, start, d + 1) != Set::<u32>::empty());
    }
}

/// The distances from one vertex to every vertex it reaches.
pub struct DistanceProfile {
    /// Each reached vertex other than the start, with its distance.
    pub distances: HashMap<u32, usize>,
    /// The greatest distance.
    pub farthest: usize,
    /// The number of reached vertices other than the start.
    pub reached: u64,
    /// The sum of their distances.
    pub total: u128,
}

/// Whether `profile` holds the shortest-path distances from `start`.
pub open spec fn is_distance_profile(
    adj: Map<u32, Set<u32>>,
    start: u32,
    profile: DistanceProfile,
) -> bool {
    &&& is_distance_map(adj, start, profile.distances@)
    &&& profile.farthest == farthest(adj, start)
    &&& profile.reached == reachable_count(adj, start)
    &&& profile.total == total_distance(adj, start)
}

/// Whether `distances` maps exactly the vertices at a distance of one or
/// more from `start`, each to its distance.
pub open spec fn is_distance_map(adj: Map<u32, Set<u32>>, start: u32, distances: Map<u32, usize>) -> bool {
    &&& forall|v: u32| #[trigger]
        distances.contains_key(v) ==> distances[v] >= 1 && at_distance(
            adj,
            start,
            distances[v] as nat,
        ).contains(v)
    &&& forall|v: u32, k: nat|
        k >= 1 && #[trigger] at_distance(adj, start, k).contains(v) ==> distances.contains_key(v)
            && distances[v] == k
}

/// The vertices whose neighbours the search has taken when it stands at depth `k`.
spec fn expanded(adj: Map<u32, Set<u32>>, start: u32, k: nat) -> Set<u32> {
    if k == 0 {
        Set::empty()
    } else {
        within(adj, start, (k - 1) as nat)
    }
}

/// Enters every vertex of the layer with the given distance.
fn record_layer(distances: &mut HashMap<u32, usize>, layer: &Vec<u32>, depth: usize)
    ensures
        final(distances)@ == Map::new(
            |v: u32| old(distances)@.contains_key(v) || layer@.to_set().contains(v),
            |v: u32|
                if layer@.to_set().contains(v) {
                    depth
                } else {
                    old(distances)@[v]
                },
        ),
{
    let ghost before = distances@;
    let mut i: usize = 0;
    assert(layer@.take(0).to_set() =~= Set::<u32>::empty());
    while i < layer.len()
        invariant
            i <= layer.len(),
            distances@ =~= Map::new(
                |v: u32| before.contains_key(v) || layer@.take(i as int).to_set().contains(v),
                |v: u32|
                    if layer@.take(i as int).to_set().contains(v) {
                        depth
                    } else {
                        before[v]
                    },
            ),
        decreases layer.len() - i,
    {
        proof {
            assert(layer@.take(i + 1) =~= layer@.take(i as int).push(layer@[i as int]));
            layer@.take(i as int).lemma_push_to_set_commute(layer@[i as int]);
        }
        distances.insert(layer[i], depth);
        i += 1;
    }
    assert(layer@.take(layer@.len() as int) =~= layer@);
}

/// The shortest-path distance from `start` to every vertex it reaches, the
/// start itself left out, with their number, their sum and the greatest.
pub fn distances_from(graph: &HashMap<u32, HashSet<u32>>, start: u32) -> (profile: DistanceProfile)
    ensures
        is_distance_profile(adjacency(graph@), start, profile),
        profile.farthest <= profile.reached <= 0x1_0000_0000,
        profile.total <= profile.reached * profile.reached,
{
    let ghost adj = adjacency(graph@);
    let ghost known = graph@.dom();
    let mut visited: HashSet<u32> = HashSet::new();
    visited.insert(start);
    let mut frontier: Vec<u32> = Vec::new();
    frontier.push(start);
    let mut distances: HashMap<u32, usize> = HashMap::new();
    let mut depth: usize = 0;
    let mut reached: u64 = 0;
    let mut total: u128 = 0;
    proof {
        assert(frontier@ =~= Seq::<u32>::empty().push(start));
        assert(Seq::<u32>::empty().to_set() =~= Set::<u32>::empty());
        Seq::<u32>::empty().lemma_push_to_set_commute(start);
        assert(frontier@.to_set() =~= set![start]);
        assert(visited@ =~= set![start]);
        assert(known.intersect(expanded(adj, start, 0)) =~= Set::<u32>::empty());
        assert(graph.len() == known.len());
        assert(at_distance(adj, start, 0).contains(start));
    }
    loop
        invariant
            adj == adjacency(graph@),
            known == graph@.dom(),
            known.finite(),
            known.len() <= usize::MAX,
            visited@ == within(adj, start, depth as nat),
            visited@.finite(),
            frontier@.to_set() == at_distance(adj, start, depth as nat),
            frontier@.len() > 0,
            forall|k: nat|
                k <= depth ==> #[trigger] at_distance(adj, start, k) != Set::<u32>::empty(),
            forall|v: u32| distances@.contains_key(v) ==> visited@.contains(v),
            forall|v: u32| #[trigger]
                distances@.contains_key(v) ==> 1 <= distances@[v] <= depth && at_distance(
                    adj,
                    start,
                    distances@[v] as nat,
                ).contains(v),
            forall|v: u32, k: nat|
                1 <= k <= depth && #[trigger] at_distance(adj, start, k).contains(v)
                    ==> distances@.contains_key(v) && distances@[v] == k,
            reached <= 0x1_0000_0000,
            depth <= known.intersect(expanded(adj, start, depth as nat)).len() <= known.len(),
            reached == reach_count(adj, start, depth as nat),
            reached + 1 == visited@.len(),
            depth <= reached,
            total == distance_sum(adj, start, depth as nat),
            total <= depth * reached,
        ensures
            at_distance(adj, start, (depth + 1) as nat) == Set::<u32>::empty(),
        decreases known.len() - known.intersect(expanded(adj, start, depth as nat)).len(),
    {
        let ghost seen = visited@;
        let ghost layer = frontier@.to_set();
        proof {
            lemma_next_layer(adj, start, depth as nat);
        }
        let next = expand(graph, &frontier, &mut visited);
        if next.len() == 0 {
            proof {
                assert(next@.to_set() =~= Set::<u32>::empty());
                assert forall|x: u32| visited@.contains(x) implies seen.contains(x) by {
                    if !seen.contains(x) {
                        assert(next@.to_set().contains(x));
                    }
                }
                assert(visited@ =~= seen);
            }
            break ;
        }
        proof {
            let fresh = next@.to_set();
            let w = next@[0];
            assert(fresh.contains(w));
            assert(successors(adj, layer).contains(w));
            let v = choose|v: u32| layer.contains(v) && #[trigger] neighbors(adj, v).contains(w);
            assert(known.contains(v));
            let done = known.intersect(expanded(adj, start, depth as nat));
            let done_next = known.intersect(expanded(adj, start, (depth + 1) as nat));
            assert(seen.contains(v));
            assert(!expanded(adj, start, depth as nat).contains(v));
            assert(done_next.contains(v));
            assert(done.subset_of(done_next.remove(v)));
            vstd::set_lib::lemma_len_subset(done_next, known);
            vstd::set_lib::lemma_len_subset(done, done_next.remove(v));
            next@.unique_seq_to_set();
            vstd::seq_lib::seq_to_set_is_finite(next@);
            assert(visited@ =~= seen + fresh);
            assert(seen.disjoint(fresh));
            vstd::set_lib::lemma_set_disjoint_lens(seen, fresh);
            lemma_vertex_count_bound(visited@);
            assert(at_distance(adj, start, (depth + 1) as nat).contains(w));
            assert((depth + 1) * next@.len() <= 0x1_0000_0000_0000_0000 * 0x1_0000_0000
                && total + (depth + 1) * next@.len() <= (depth + 1) * (reached + next@.len()))
                by (nonlinear_arith)
                requires
                    0 <= depth < 0xffff_ffff_ffff_ffff,
                    0 <= next@.len() <= 0x1_0000_0000,
                    0 <= total <= depth * reached,
                    0 <= reached,
            ;
            assert((depth + 1) * (reached + next@.len()) <= 0x1_0000_0000_0000_0000
                * 0x1_0000_0000) by (nonlinear_arith)
                requires
                    0 <= depth < 0xffff_ffff_ffff_ffff,
                    0 <= reached + next@.len() <= 0x1_0000_0000,
            ;
        }
        let ghost earlier = distances@;
        depth += 1;
        record_layer(&mut distances, &next, depth);
        reached = reached + (next.len() as u64);
        total = total + (depth as u128) * (next.len() as u128);
        frontier = next;
        proof {
            assert forall|v: u32| #[trigger] distances@.contains_key(v) implies 1 <= distances@[v]
                <= depth && at_distance(adj, start, distances@[v] as nat).contains(v) by {
                if !frontier@.to_set().contains(v) {
                    assert(earlier.contains_key(v));
                }
            }
            assert forall|v: u32, k: nat|
                1 <= k <= depth && #[trigger] at_distance(adj, start, k).contains(
                    v,
                ) implies distances@.contains_key(v) && distances@[v] == k by {
                if k < depth {
                    assert(earlier.contains_key(v) && earlier[v] == k);
                    assert(seen.contains(v));
                    assert(!frontier@.to_set().contains(v));
                }
            }
            assert forall|v: u32| distances@.contains_key(v) implies visited@.contains(v) by {
                if !frontier@.to_set().contains(v) {
                    assert(earlier.contains_key(v));
                }
            }
        }
    }
    proof {
        let d = depth as nat;
        assert(is_farthest(adj, start, d));
        lemma_farthest_unique(adj, start, d);
        assert forall|v: u32, k: nat|
            k >= 1 && #[trigger] at_distance(adj, start, k).contains(
                v,
            ) implies distances@.contains_key(v) && distances@[v] == k by {
            if k > d {
                lemma_layers_end(adj, start, d, k);
            }
        }
        assert(depth * reached <= reached * reached) by (nonlinear_arith)
            requires
                0 <= depth <= reached,
        ;
    }
    DistanceProfile { distances, farthest: depth, reached, total }
}

/// The shortest-path distance from `start` to every vertex it reaches; the
/// start itself has no entry.
pub fn bfs_directed(graph: &HashMap<u32, HashSet<u32>>, start: u32) -> (distances: HashMap<
    u32,
    usize,
>)
    ensures
        is_distance_map(adjacency(graph@), start, distances@),
        !distances@.contains_key(start),
{
    let profile = distances_from(graph, start);
    proof {
        let adj = adjacency(graph@);
        if profile.distances@.contains_key(start) {
            let k = profile.distances@[start] as nat;
            assert(at_distance(adj, start, k).contains(start));
            lemma_start_is_within(adj, start, (k - 1) as nat);
        }
    }
    profile.distances
}

/// The sum, over the vertices of `order`, of the distances from each to
/// every vertex it reaches.
pub open spec fn sum_distances(adj: Map<u32, Set<u32>>, order: Seq<u32>) -> nat {
    sum_over(order, |v: u32| total_distance(adj, v))
}

/// The number of ordered pairs of distinct vertices, the first from `order`,
/// of which the first reaches the second.
pub open spec fn sum_reached(adj: Map<u32, Set<u32>>, order: Seq<u32>) -> nat {
    sum_over(order, |v: u32| reachable_count(adj, v))
}

/// The average distance between vertices as the fraction `total / pairs`:
/// the sum of the distances over the number of ordered pairs of distinct
/// vertices of which the first reaches the second.
#[derive(Clone, Copy, Debug, PartialEq, Eq, Structural)]
pub struct AverageDistance {
    pub total: u128,
    pub pairs: u128,
}

impl AverageDistance {
    /// Numerator and denominator of the average; zero over one where no
    /// vertex reaches another.
    pub fn fraction(&self) -> (f: (u128, u128))
        ensures
            self.pairs > 0 ==> f == (self.total, self.pairs),
            self.pairs == 0 ==> f == (0u128, 1u128),
    {
        if self.pairs > 0 {
            (self.total, self.pairs)
        } else {
            (0, 1)
        }
    }
}

/// The average distance from the vertices of `order` to the vertices they
/// reach. A pair of vertices that reach each other counts from both ends.
pub fn average_distance_in_order(graph: &HashMap<u32, HashSet<u32>>, order: &Vec<u32>) -> (avg:
    AverageDistance)
    ensures
        avg.total == sum_distances(adjacency(graph@), order@),
        avg.pairs == sum_reached(adjacency(graph@), order@),
{
    let ghost adj = adjacency(graph@);
    let n = order.len();
    let mut total: u128 = 0;
    let mut pairs: u128 = 0;
    let mut i: usize = 0;
    while i < n
        invariant
            i <= n,
            n == order@.len(),
            adj == adjacency(graph@),
            total == sum_distances(adj, order@.take(i as int)),
            pairs == sum_reached(adj, order@.take(i as int)),
            total <= i * 0x1_0000_0000_0000_0000,
            pairs <= i * 0x1_0000_0000,
        decreases n - i,
    {
        let profile = distances_from(graph, order[i]);
        proof {
            assert(order@.take(i + 1).drop_last() =~= order@.take(i as int));
            assert(order@.take(i + 1).last() == order@[i as int]);
            assert(profile.reached * profile.reached <= 0x1_0000_0000 * 0x1_0000_0000)
                by (nonlinear_arith)
                requires
                    0 <= profile.reached <= 0x1_0000_0000,
            ;
        }
        total = total + profile.total;
        pairs = pairs + (profile.reached as u128);
        i += 1;
    }
    assert(order@.take(n as int) =~= order@);
    AverageDistance { total, pairs }
}

/// The average distance between the vertices of the graph. The sums are the
/// same in whatever order the vertices are taken.
pub fn average_distance(graph: &HashMap<u32, HashSet<u32>>) -> (avg: AverageDistance)
    ensures
        forall|order: Seq<u32>| #[trigger]
            is_vertex_order(graph@, order) ==> avg.total == sum_distances(
                adjacency(graph@),
                order,
            ) && avg.pairs == sum_reached(adjacency(graph@), order),
        graph@.dom().len() == 0 ==> avg.total == 0 && avg.pairs == 0,
{
    let order = vertex_order(graph);
    let avg = average_distance_in_order(graph, &order);
    proof {
        order@.unique_seq_to_set();
        assert forall|other: Seq<u32>| #[trigger] is_vertex_order(graph@, other) implies avg.total
            == sum_distances(adjacency(graph@), other) && avg.pairs == sum_reached(
            adjacency(graph@),
            other,
        ) by {
            let adj = adjacency(graph@);
            lemma_sum_any_order(order@, other, |v: u32| total_distance(adj, v));
            lemma_sum_any_order(order@, other, |v: u32| reachable_count(adj, v));
        }
    }
    avg
}

/// Two searches from the same vertex of the same graph give the same distances.
pub proof fn lemma_distances_repeatable(
    adj: Map<u32, Set<u32>>,
    start: u32,
    first: Map<u32, usize>,
    second: Map<u32, usize>,
)
    requires
        is_distance_map(adj, start, first),
        is_distance_map(adj, start, second),
    ensures
        first == second,
{
    assert forall|v: u32| first.contains_key(v) <==> second.contains_key(v) by {
        if first.contains_key(v) {
            assert(at_distance(adj, start, first[v] as nat).contains(v));
        }
        if second.contains_key(v) {
            assert(at_distance(adj, start, second[v] as nat).contains(v));
        }
    }
    assert forall|v: u32| first.contains_key(v) implies first[v] == second[v] by {
        assert(at_distance(adj, start, first[v] as nat).contains(v));
    }
    assert(first =~= second);
}

/// Without vertices every figure is zero.
pub proof fn lemma_no_vertices(adj: Map<u32, Set<u32>>, stats: SixthDegreeStats)
    requires
        is_sixth_degree_stats(adj, Seq::<u32>::empty(), stats),
    ensures
        stats.per_vertex@.len() == 0,
        stats.total == 0,
        stats.squares == 0,
        stats.possible_pairs == 0,
        sum_distances(adj, Seq::<u32>::empty()) == 0,
        sum_reached(adj, Seq::<u32>::empty()) == 0,
{
}

} // verus!
