//! Sixth-degree connections: the vertices at distance six from a vertex,
//! their number for every vertex of a graph, and the frequency of each number.

use crate::graph::{
    adjacency, is_vertex_order, lemma_hash_set_finite, lemma_vertex_count_bound, vertex_order,
};
use crate::layers::{at_distance, expand, lemma_next_layer, lemma_start_is_within, within};
use crate::sums::{lemma_sum_any_order, sum_over};
use std::collections::{HashMap, HashSet};
use vstd::prelude::*;

verus! {

broadcast use vstd::std_specs::hash::group_hash_axioms;

/// The vertices whose shortest-path distance from `start` is exactly six.
pub fn bfs_sixth_degree_paths(graph: &HashMap<u32, HashSet<u32>>, start: u32) -> (found: HashSet<u32>)
    ensures
        found@ == at_distance(adjacency(graph@), start, 6),
        !found@.contains(start),
{
    let ghost adj = adjacency(graph@);
    proof {
        lemma_start_is_within(adj, start, 5);
    }
    let mut visited: HashSet<u32> = HashSet::new();
    visited.insert(start);
    let mut frontier: Vec<u32> = Vec::new();
    frontier.push(start);
    let mut depth: usize = 0;
    proof {
        assert(frontier@ =~= Seq::<u32>::empty().push(start));
        assert(Seq::<u32>::empty().to_set() =~= Set::<u32>::empty());
        Seq::<u32>::empty().lemma_push_to_set_commute(start);
        assert(frontier@.to_set() =~= set![start]);
    }
    assert(visited@ =~= set![start]);
    while depth < 6
        invariant
            depth <= 6,
            adj == adjacency(graph@),
            visited@ == within(adj, start, depth as nat),
            frontier@.to_set() == at_distance(adj, start, depth as nat),
        decreases 6 - depth,
    {
        proof {
            lemma_next_layer(adj, start, depth as nat);
        }
        frontier = expand(graph, &frontier, &mut visited);
        depth += 1;
    }
    let mut found: HashSet<u32> = HashSet::new();
    let mut i: usize = 0;
    while i < frontier.len()
        invariant
            i <= frontier.len(),
            found@ =~= frontier@.take(i as int).to_set(),
        decreases frontier.len() - i,
    {
        proof {
            assert(frontier@.take(i + 1) =~= frontier@.take(i as int).push(frontier@[i as int]));
            frontier@.take(i as int).lemma_push_to_set_commute(frontier@[i as int]);
        }
        found.insert(frontier[i]);
        i += 1;
    }
    assert(frontier@.take(frontier@.len() as int) =~= frontier@);
    found
}

/// The sixth-degree connections of a graph, counted per vertex.
pub struct SixthDegreeStats {
    /// The vertices, in the order in which they were counted.
    pub vertices: Vec<u32>,
    /// For each vertex, at the same position, how many vertices lie at
    /// distance six from it.
    pub per_vertex: Vec<usize>,
    /// The sum of the counts. A pair of vertices at distance six of each
    /// other is counted from both ends.
    pub total: u128,
    /// The sum of the squares of the counts.
    pub squares: u128,
    /// The number of unordered pairs of distinct vertices.
    pub possible_pairs: u128,
}

impl SixthDegreeStats {
    /// The mean number of sixth-degree connections per vertex, as numerator
    /// and denominator: the sum of the counts over the number of vertices.
    /// Undefined without vertices.
    pub fn mean(&self) -> (m: Option<(u128, u128)>)
        ensures
            self.vertices@.len() == 0 ==> m.is_none(),
            self.vertices@.len() > 0 ==> m == Some((self.total, self.vertices@.len() as u128)),
    {
        if self.vertices.len() == 0 {
            None
        } else {
            Some((self.total, self.vertices.len() as u128))
        }
    }

    /// The population variance of the counts, as numerator and denominator:
    /// the number of vertices times the sum of the squares, less the square
    /// of the sum, over the square of the number of vertices. Undefined
    /// without vertices, and where one of these terms does not fit in 128 bits.
    pub fn variance(&self) -> (v: Option<(u128, u128)>)
        ensures
            v.is_some() <==> variance_is_defined(
                self.vertices@.len(),
                self.total as nat,
                self.squares as nat,
            ),
            v matches Some(f) ==> f.0 == self.vertices@.len() * self.squares - self.total
                * self.total && f.1 == self.vertices@.len() * self.vertices@.len(),
    {
        let n = self.vertices.len() as u128;
        if n == 0 {
            return None;
        }
        let denominator = match n.checked_mul(n) {
            Some(product) => product,
            None => {
                return None;
            },
        };
        let scaled = match n.checked_mul(self.squares) {
            Some(product) => product,
            None => {
                return None;
            },
        };
        let square = match self.total.checked_mul(self.total) {
            Some(product) => product,
            None => {
                return None;
            },
        };
        match scaled.checked_sub(square) {
            Some(numerator) => Some((numerator, denominator)),
            None => None,
        }
    }

    /// The proportion of vertex pairs with a sixth-degree connection, as
    /// numerator and denominator: the sum of the counts over the number of
    /// unordered pairs. The sum counts a connected pair from both ends, the
    /// denominator counts it once. Undefined with fewer than two vertices.
    pub fn proportion_of_pairs(&self) -> (p: Option<(u128, u128)>)
        ensures
            self.possible_pairs == 0 ==> p.is_none(),
            self.possible_pairs > 0 ==> p == Some((self.total, self.possible_pairs)),
    {
        if self.possible_pairs == 0 {
            None
        } else {
            Some((self.total, self.possible_pairs))
        }
    }
}

/// Whether the variance of `n` counts with the given sum and sum of squares
/// can be written with 128-bit numerator and denominator.
pub open spec fn variance_is_defined(n: nat, total: nat, squares: nat) -> bool {
    &&& n > 0
    &&& n * n <= u128::MAX
    &&& n * squares <= u128::MAX
    &&& total * total <= u128::MAX
    &&& total * total <= n * squares
}

/// The sum of the counts.
pub open spec fn sum_of(counts: Seq<usize>) -> nat
    decreases counts.len(),
{
    if counts.len() == 0 {
        0
    } else {
        sum_of(counts.drop_last()) + counts.last() as nat
    }
}

/// The sum of the squares of the counts.
pub open spec fn sum_of_squares(counts: Seq<usize>) -> nat
    decreases counts.len(),
{
    if counts.len() == 0 {
        0
    } else {
        sum_of_squares(counts.drop_last()) + (counts.last() * counts.last()) as nat
    }
}

/// The number of sixth-degree connections counted from the vertices of `order`.
pub open spec fn sixth_degree_total(adj: Map<u32, Set<u32>>, order: Seq<u32>) -> nat {
    sum_over(order, |v: u32| at_distance(adj, v, 6).len())
}

/// The sum of the squares of the numbers of sixth-degree connections of the
/// vertices of `order`.
pub open spec fn sixth_degree_squares(adj: Map<u32, Set<u32>>, order: Seq<u32>) -> nat {
    sum_over(order, |v: u32| at_distance(adj, v, 6).len() * at_distance(adj, v, 6).len())
}

/// The sums of the counts are the sums over the vertices they belong to.
pub proof fn lemma_sums_of_counts(adj: Map<u32, Set<u32>>, order: Seq<u32>, counts: Seq<usize>)
    requires
        counts.len() == order.len(),
        forall|i: int|
            0 <= i < order.len() ==> (#[trigger] counts[i]) == at_distance(adj, order[i], 6).len(),
    ensures
        sum_of(counts) == sixth_degree_total(adj, order),
        sum_of_squares(counts) == sixth_degree_squares(adj, order),
    decreases order.len(),
{
    if order.len() > 0 {
        lemma_sums_of_counts(adj, order.drop_last(), counts.drop_last());
        assert(counts.last() == at_distance(adj, order.last(), 6).len());
    }
}

/// The number of unordered pairs of distinct vertices among `n`.
pub open spec fn pair_count(n: nat) -> nat {
    if n == 0 {
        0
    } else {
        (n * (n - 1) / 2) as nat
    }
}

/// Whether `stats` holds the sixth-degree counts of the vertices of `order`.
pub open spec fn is_sixth_degree_stats(
    adj: Map<u32, Set<u32>>,
    order: Seq<u32>,
    stats: SixthDegreeStats,
) -> bool {
    &&& stats.vertices@ == order
    &&& stats.per_vertex@.len() == order.len()
    &&& forall|i: int|
        0 <= i < order.len() ==> (#[trigger] stats.per_vertex@[i]) == at_distance(
            adj,
            order[i],
            6,
        ).len()
    &&& stats.total == sum_of(stats.per_vertex@)
    &&& stats.squares == sum_of_squares(stats.per_vertex@)
    &&& stats.possible_pairs == pair_count(order.len())
}

/// The number of unordered pairs of distinct vertices among `n`.
fn count_pairs(n: usize) -> (pairs: u128)
    ensures
        pairs == pair_count(n as nat),
{
    if n == 0 {
        return 0;
    }
    assert(n * (n - 1) <= 0xffff_ffff_ffff_ffff * 0xffff_ffff_ffff_ffff) by (nonlinear_arith)
        requires
            1 <= n <= 0xffff_ffff_ffff_ffff,
    ;
    (n as u128) * ((n - 1) as u128) / 2
}

/// Counts, for each vertex of `order`, the vertices at distance six from it,
/// and sums the counts and their squares.
pub fn sixth_degree_stats_in_order(graph: &HashMap<u32, HashSet<u32>>, order: &Vec<u32>) -> (stats:
    SixthDegreeStats)
    ensures
        is_sixth_degree_stats(adjacency(graph@), order@, stats),
{
    let ghost adj = adjacency(graph@);
    let n = order.len();
    let mut vertices: Vec<u32> = Vec::new();
    let mut per_vertex: Vec<usize> = Vec::new();
    let mut total: u128 = 0;
    let mut squares: u128 = 0;
    let mut i: usize = 0;
    while i < n
        invariant
            i <= n,
            n == order@.len(),
            adj == adjacency(graph@),
            vertices@ == order@.take(i as int),
            per_vertex@.len() == i,
            forall|k: int|
                0 <= k < i ==> (#[trigger] per_vertex@[k]) == at_distance(adj, order@[k], 6).len(),
            total == sum_of(per_vertex@),
            squares == sum_of_squares(per_vertex@),
            total <= i * 0x1_0000_0000,
            squares <= i * 0x1_0000_0000_0000_0000,
        decreases n - i,
    {
        let vertex = order[i];
        let found = bfs_sixth_degree_paths(graph, vertex);
        let count = found.len();
        proof {
            lemma_hash_set_finite(&found);
            lemma_vertex_count_bound(found@);
            assert(per_vertex@.push(count).drop_last() =~= per_vertex@);
            assert(order@.take(i + 1) =~= order@.take(i as int).push(vertex));
            assert(count * count <= 0x1_0000_0000 * 0x1_0000_0000) by (nonlinear_arith)
                requires
                    0 <= count <= 0x1_0000_0000,
            ;
        }
        total = total + (count as u128);
        squares = squares + (count as u128) * (count as u128);
        vertices.push(vertex);
        per_vertex.push(count);
        i += 1;
    }
    assert(order@.take(n as int) =~= order@);
    let possible_pairs = count_pairs(n);
    SixthDegreeStats { vertices, per_vertex, total, squares, possible_pairs }
}

/// The sixth-degree statistics of the graph: its vertices in the order in
/// which the graph yields them, each with the number of vertices at distance
/// six from it, and the sums from which mean, variance and the proportion of
/// connected pairs follow.
pub fn calculate_sixth_degree_stats(graph: &HashMap<u32, HashSet<u32>>) -> (stats: SixthDegreeStats)
    ensures
        is_vertex_order(graph@, stats.vertices@),
        is_sixth_degree_stats(adjacency(graph@), stats.vertices@, stats),
        forall|order: Seq<u32>| #[trigger]
            is_vertex_order(graph@, order) ==> stats.total == sixth_degree_total(
                adjacency(graph@),
                order,
            ) && stats.squares == sixth_degree_squares(adjacency(graph@), order),
        stats.possible_pairs == pair_count(graph@.dom().len()),
        graph@.dom().len() == 0 ==> stats.per_vertex@.len() == 0 && stats.total == 0
            && stats.squares == 0 && stats.possible_pairs == 0,
{
    let order = vertex_order(graph);
    let stats = sixth_degree_stats_in_order(graph, &order);
    proof {
        let adj = adjacency(graph@);
        order@.unique_seq_to_set();
        lemma_sums_of_counts(adj, order@, stats.per_vertex@);
        assert forall|other: Seq<u32>| #[trigger]
            is_vertex_order(graph@, other) implies stats.total == sixth_degree_total(adj, other)
            && stats.squares == sixth_degree_squares(adj, other) by {
            lemma_sum_any_order(order@, other, |v: u32| at_distance(adj, v, 6).len());
            lemma_sum_any_order(
                order@,
                other,
                |v: u32| at_distance(adj, v, 6).len() * at_distance(adj, v, 6).len(),
            );
        }
    }
    stats
}

/// How often `k` occurs among the counts.
pub open spec fn occurrences(counts: Seq<usize>, k: int) -> nat
    decreases counts.len(),
{
    if counts.len() == 0 {
        0
    } else {
        occurrences(counts.drop_last(), k) + if counts.last() == k {
            1nat
        } else {
            0nat
        }
    }
}

/// The greatest of the counts; zero if there is none.
fn greatest(counts: &Vec<usize>) -> (top: usize)
    ensures
        forall|i: int| 0 <= i < counts@.len() ==> counts@[i] <= top,
        counts@.len() > 0 ==> counts@.contains(top),
        counts@.len() == 0 ==> top == 0,
{
    let mut top: usize = 0;
    let mut i: usize = 0;
    while i < counts.len()
        invariant
            i <= counts.len(),
            forall|k: int| 0 <= k < i ==> counts@[k] <= top,
            i > 0 ==> counts@.contains(top),
            i == 0 ==> top == 0,
        decreases counts.len() - i,
    {
        if i == 0 || counts[i] > top {
            top = counts[i];
            assert(counts@[i as int] == top);
        }
        i += 1;
    }
    top
}

/// The frequency of each count: the entry at position `k` says how many
/// vertices have exactly `k` sixth-degree connections, for every `k` up to
/// the greatest count. Without any count there are no frequencies.
pub fn sixth_degree_frequencies(per_vertex: &Vec<usize>) -> (frequencies: Vec<usize>)
    requires
        forall|i: int| 0 <= i < per_vertex@.len() ==> per_vertex@[i] < usize::MAX,
    ensures
        per_vertex@.len() == 0 ==> frequencies@.len() == 0,
        per_vertex@.len() > 0 ==> per_vertex@.contains((frequencies@.len() - 1) as usize),
        forall|i: int| 0 <= i < per_vertex@.len() ==> per_vertex@[i] < frequencies@.len(),
        forall|k: int|
            0 <= k < frequencies@.len() ==> (#[trigger] frequencies@[k]) == occurrences(
                per_vertex@,
                k,
            ),
{
    let mut frequencies: Vec<usize> = Vec::new();
    if per_vertex.len() == 0 {
        return frequencies;
    }
    let top = greatest(per_vertex);
    let mut k: usize = 0;
    while k <= top
        invariant
            k <= top + 1,
            top < usize::MAX,
            frequencies@.len() == k,
            forall|j: int| 0 <= j < k ==> (#[trigger] frequencies@[j]) == 0,
        decreases top + 1 - k,
    {
        frequencies.push(0);
        k += 1;
    }
    let mut i: usize = 0;
    while i < per_vertex.len()
        invariant
            i <= per_vertex.len(),
            frequencies@.len() == top + 1,
            forall|j: int| 0 <= j < per_vertex@.len() ==> per_vertex@[j] <= top,
            forall|j: int|
                0 <= j < frequencies@.len() ==> (#[trigger] frequencies@[j]) == occurrences(
                    per_vertex@.take(i as int),
                    j,
                ),
            forall|j: int| 0 <= j < frequencies@.len() ==> (#[trigger] frequencies@[j]) <= i,
        decreases per_vertex.len() - i,
    {
        let count = per_vertex[i];
        proof {
            assert(per_vertex@.take(i + 1).drop_last() =~= per_vertex@.take(i as int));
            assert(per_vertex@.take(i + 1).last() == count);
        }
        let seen = frequencies[count];
        frequencies.set(count, seen + 1);
        i += 1;
    }
    assert(per_vertex@.take(per_vertex@.len() as int) =~= per_vertex@);
    frequencies
}

/// Two counts of the same vertices of the same graph agree in every figure.
pub proof fn lemma_stats_repeatable(
    adj: Map<u32, Set<u32>>,
    order: Seq<u32>,
    first: SixthDegreeStats,
    second: SixthDegreeStats,
)
    requires
        is_sixth_degree_stats(adj, order, first),
        is_sixth_degree_stats(adj, order, second),
    ensures
        first.vertices@ == second.vertices@,
        first.per_vertex@ == second.per_vertex@,
        first.total == second.total,
        first.squares == second.squares,
        first.possible_pairs == second.possible_pairs,
{
    assert(first.per_vertex@ =~= second.per_vertex@);
}

} // verus!
