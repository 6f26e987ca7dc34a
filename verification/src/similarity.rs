//! Neighbourhood similarity: the Jaccard coefficient of two neighbour sets as
//! an exact fraction, and the most and least similar pairs of vertices.

use crate::graph::{
    adjacency, is_vertex_order, lemma_hash_set_finite, lemma_vertex_count_bound, neighbors,
    set_items, vertex_order,
};
use std::collections::{HashMap, HashSet};
use vstd::prelude::*;

verus! {

broadcast use vstd::std_specs::hash::group_hash_axioms;

/// A Jaccard coefficient as the fraction `shared / total`: the size of the
/// intersection over the size of the union. With `total == 0` it is undefined.
#[derive(Clone, Copy, Debug, PartialEq, Eq, Structural)]
pub struct Similarity {
    pub shared: u64,
    pub total: u64,
}

/// A pair of vertices with its coefficient.
pub type ScoredPair = (u32, u32, Similarity);

/// The coefficient of two sets.
pub open spec fn jaccard(a: Set<u32>, b: Set<u32>) -> Similarity {
    Similarity { shared: a.intersect(b).len() as u64, total: a.union(b).len() as u64 }
}

/// Whether `x` is strictly greater than `y` as a fraction. An undefined
/// coefficient is neither greater nor smaller than anything.
pub open spec fn exceeds(x: Similarity, y: Similarity) -> bool {
    x.total > 0 && y.total > 0 && x.shared * y.total > y.shared * x.total
}

/// The pair reported as most similar while no pair has a positive coefficient.
pub open spec fn no_similar_pair() -> ScoredPair {
    (0u32, 0u32, Similarity { shared: 0, total: 1 })
}

/// The pair reported as most dissimilar while no pair has a coefficient
/// strictly between zero and one.
pub open spec fn no_dissimilar_pair() -> ScoredPair {
    (0u32, 0u32, Similarity { shared: 1, total: 1 })
}

/// The extremes after one more pair has been seen: the pair replaces the most
/// similar one if its coefficient is strictly greater, and the most dissimilar
/// one if its coefficient is strictly smaller and not zero.
pub open spec fn observe(best: (ScoredPair, ScoredPair), u: u32, v: u32, s: Similarity) -> (
    ScoredPair,
    ScoredPair,
) {
    (
        if exceeds(s, best.0.2) {
            (u, v, s)
        } else {
            best.0
        },
        if exceeds(best.1.2, s) && s.shared > 0 {
            (u, v, s)
        } else {
            best.1
        },
    )
}

/// The extremes after the pairs of position `i` with the positions after it
/// and before `end` have been seen, in rising order, starting from `best`.
pub open spec fn scan_row(
    adj: Map<u32, Set<u32>>,
    order: Seq<u32>,
    i: int,
    end: int,
    best: (ScoredPair, ScoredPair),
) -> (ScoredPair, ScoredPair)
    decreases end - i,
{
    if end <= i + 1 || i < 0 || end > order.len() {
        best
    } else {
        observe(
            scan_row(adj, order, i, end - 1, best),
            order[i],
            order[end - 1],
            jaccard(neighbors(adj, order[i]), neighbors(adj, order[end - 1])),
        )
    }
}

/// The extremes after every pair whose first position is before `rows` has
/// been seen: each unordered pair once, by rising first and second position.
pub open spec fn scan_pairs(adj: Map<u32, Set<u32>>, order: Seq<u32>, rows: int) -> (
    ScoredPair,
    ScoredPair,
)
    decreases rows,
{
    if rows <= 0 {
        (no_similar_pair(), no_dissimilar_pair())
    } else {
        scan_row(adj, order, rows - 1, order.len() as int, scan_pairs(adj, order, rows - 1))
    }
}

/// The most and least similar pairs among the vertices of `order`.
pub open spec fn extreme_pairs(adj: Map<u32, Set<u32>>, order: Seq<u32>) -> (ScoredPair, ScoredPair) {
    scan_pairs(adj, order, order.len() as int)
}

/// The Jaccard coefficient of two neighbour sets, as an exact fraction.
pub fn jaccard_similarity(set1: &HashSet<u32>, set2: &HashSet<u32>) -> (s: Similarity)
    ensures
        s.shared == set1@.intersect(set2@).len(),
        s.total == set1@.union(set2@).len(),
        s == jaccard(set1@, set2@),
        s.shared <= s.total <= 0x1_0000_0000,
{
    let items = set_items(set1);
    let mut shared: u64 = 0;
    let mut i: usize = 0;
    proof {
        lemma_hash_set_finite(set1);
        lemma_hash_set_finite(set2);
        lemma_vertex_count_bound(set1@);
        lemma_vertex_count_bound(set2@);
        lemma_vertex_count_bound(set1@.union(set2@));
        assert(items@.take(0).to_set().intersect(set2@) =~= Set::<u32>::empty());
    }
    while i < items.len()
        invariant
            i <= items.len(),
            items@.no_duplicates(),
            items@.to_set() == set1@,
            set1@.finite(),
            set2@.finite(),
            shared == items@.take(i as int).to_set().intersect(set2@).len(),
            shared <= i,
        decreases items.len() - i,
    {
        let w = items[i];
        proof {
            let before = items@.take(i as int);
            assert(items@.take(i + 1) =~= before.push(w));
            before.lemma_push_to_set_commute(w);
            vstd::seq_lib::seq_to_set_is_finite(before);
            assert(!before.contains(w));
            if set2@.contains(w) {
                assert(before.push(w).to_set().intersect(set2@) =~= before.to_set().intersect(
                    set2@,
                ).insert(w));
            } else {
                assert(before.push(w).to_set().intersect(set2@) =~= before.to_set().intersect(
                    set2@,
                ));
            }
        }
        if set2.contains(&w) {
            shared += 1;
        }
        i += 1;
    }
    proof {
        assert(items@.take(items@.len() as int) =~= items@);
        vstd::set_lib::lemma_set_difference_len(set1@, set2@);
        vstd::set_lib::lemma_set_difference_len(set2@, set1@);
        assert(set2@.intersect(set1@) =~= set1@.intersect(set2@));
        assert(set2@.union(set1@) =~= set1@.union(set2@));
    }
    let total: u64 = (set1.len() as u64) + (set2.len() as u64) - shared;
    Similarity { shared, total }
}

/// Whether `x` is strictly greater than `y` as a fraction.
fn greater(x: Similarity, y: Similarity) -> (yes: bool)
    ensures
        yes == exceeds(x, y),
{
    if x.total == 0 || y.total == 0 {
        return false;
    }
    proof {
        lemma_product_fits(x.shared, y.total);
        lemma_product_fits(y.shared, x.total);
    }
    let left: u128 = (x.shared as u128) * (y.total as u128);
    let right: u128 = (y.shared as u128) * (x.total as u128);
    left > right
}

/// The product of two 64-bit numbers fits in 128 bits.
proof fn lemma_product_fits(a: u64, b: u64)
    ensures
        a * b <= u128::MAX,
{
    assert(a * b <= 0xffff_ffff_ffff_ffff * 0xffff_ffff_ffff_ffff) by (nonlinear_arith)
        requires
            0 <= a <= 0xffff_ffff_ffff_ffff,
            0 <= b <= 0xffff_ffff_ffff_ffff,
    ;
}

/// The coefficient of the neighbour sets of `u` and `v`; a vertex that the
/// graph does not know has the empty set.
fn similarity_between(graph: &HashMap<u32, HashSet<u32>>, u: u32, v: u32) -> (s: Similarity)
    ensures
        s == jaccard(neighbors(adjacency(graph@), u), neighbors(adjacency(graph@), v)),
        s.shared <= s.total,
{
    let none: HashSet<u32> = HashSet::new();
    let first = match graph.get(&u) {
        Some(set) => set,
        None => &none,
    };
    let second = match graph.get(&v) {
        Some(set) => set,
        None => &none,
    };
    jaccard_similarity(first, second)
}

/// The most similar and the most dissimilar pair among the vertices of
/// `order`, each unordered pair of positions seen once: the first position
/// rising, and for each the second position rising behind it. The most similar
/// pair is the first with the greatest coefficient; the most dissimilar is the
/// first with the smallest coefficient above zero. A pair with coefficient
/// zero is never the most dissimilar one.
pub fn find_extreme_pairs_in_order(graph: &HashMap<u32, HashSet<u32>>, order: &Vec<u32>) -> (pairs: (
    ScoredPair,
    ScoredPair,
))
    ensures
        pairs == extreme_pairs(adjacency(graph@), order@),
        0 < pairs.1.2.shared <= pairs.1.2.total,
        0 <= pairs.0.2.shared <= pairs.0.2.total,
        pairs.0.2.total > 0,
{
    let ghost adj = adjacency(graph@);
    let mut best: (ScoredPair, ScoredPair) = (
        (0u32, 0u32, Similarity { shared: 0, total: 1 }),
        (0u32, 0u32, Similarity { shared: 1, total: 1 }),
    );
    let n = order.len();
    let mut i: usize = 0;
    while i < n
        invariant
            i <= n,
            n == order@.len(),
            adj == adjacency(graph@),
            best == scan_pairs(adj, order@, i as int),
            0 < best.1.2.shared <= best.1.2.total,
            best.0.2.shared <= best.0.2.total,
            best.0.2.total > 0,
        decreases n - i,
    {
        let ghost row_start = best;
        let mut j: usize = i + 1;
        while j < n
            invariant
                i < n,
                i + 1 <= j <= n,
                n == order@.len(),
                adj == adjacency(graph@),
                best == scan_row(adj, order@, i as int, j as int, row_start),
                0 < best.1.2.shared <= best.1.2.total,
                best.0.2.shared <= best.0.2.total,
                best.0.2.total > 0,
            decreases n - j,
        {
            let u = order[i];
            let v = order[j];
            let s = similarity_between(graph, u, v);
            let more = greater(s, best.0.2);
            let less = greater(best.1.2, s);
            let most = if more {
                (u, v, s)
            } else {
                best.0
            };
            let least = if less && s.shared > 0 {
                (u, v, s)
            } else {
                best.1
            };
            best = (most, least);
            j += 1;
        }
        i += 1;
    }
    best
}

/// The most similar and the most dissimilar pair of vertices of the graph,
/// for the order in which the graph yields its vertices.
pub fn find_extreme_pairs(graph: &HashMap<u32, HashSet<u32>>) -> (pairs: (ScoredPair, ScoredPair))
    ensures
        exists|order: Seq<u32>| #[trigger]
            is_vertex_order(graph@, order) && pairs == extreme_pairs(adjacency(graph@), order),
        0 < pairs.1.2.shared <= pairs.1.2.total,
        0 <= pairs.0.2.shared <= pairs.0.2.total,
        pairs.0.2.total > 0,
        graph@.dom().len() <= 1 ==> pairs == (no_similar_pair(), no_dissimilar_pair()),
{
    let order = vertex_order(graph);
    let pairs = find_extreme_pairs_in_order(graph, &order);
    proof {
        assert(is_vertex_order(graph@, order@));
        order@.unique_seq_to_set();
        if order@.len() <= 1 {
            lemma_few_vertices(adjacency(graph@), order@);
        }
    }
    pairs
}

/// With fewer than two vertices there is no pair, and both extremes keep
/// their initial values.
pub proof fn lemma_few_vertices(adj: Map<u32, Set<u32>>, order: Seq<u32>)
    requires
        order.len() <= 1,
    ensures
        extreme_pairs(adj, order) == (no_similar_pair(), no_dissimilar_pair()),
{
    if order.len() == 1 {
        assert(scan_pairs(adj, order, 0) == (no_similar_pair(), no_dissimilar_pair()));
        assert(scan_row(adj, order, 0, 1, scan_pairs(adj, order, 0)) == scan_pairs(adj, order, 0));
    }
}

/// Whether the extremes hold defined coefficients.
pub open spec fn defined_extremes(best: (ScoredPair, ScoredPair)) -> bool {
    best.0.2.total > 0 && best.1.2.total > 0
}

/// Whether the coefficient `s` lies between the extremes: it is not greater
/// than that of the most similar pair and, unless it is zero, not smaller
/// than that of the most dissimilar pair.
pub open spec fn lies_between(best: (ScoredPair, ScoredPair), s: Similarity) -> bool {
    !exceeds(s, best.0.2) && (s.shared > 0 ==> !exceeds(best.1.2, s))
}

/// Of three fractions, if the first is not greater than the second and the
/// second is smaller than the third, the first is not greater than the third.
proof fn lemma_below_smaller(a: Similarity, b: Similarity, c: Similarity)
    requires
        b.total > 0,
        !exceeds(a, b),
        exceeds(c, b),
    ensures
        !exceeds(a, c),
{
    if a.total > 0 {
        let (sa, ta) = (a.shared as int, a.total as int);
        let (sb, tb) = (b.shared as int, b.total as int);
        let (sc, tc) = (c.shared as int, c.total as int);
        assert(sa * tc <= sc * ta) by (nonlinear_arith)
            requires
                ta > 0,
                tb > 0,
                tc > 0,
                sa >= 0,
                sb >= 0,
                sc >= 0,
                sa * tb <= sb * ta,
                sc * tb > sb * tc,
        {
            assert((sa * tb) * tc <= (sb * ta) * tc);
            assert((sb * tc) * ta <= (sc * tb) * ta);
            assert((sa * tc) * tb == (sa * tb) * tc);
            assert((sb * ta) * tc == (sb * tc) * ta);
            assert((sc * ta) * tb == (sc * tb) * ta);
            assert((sa * tc) * tb <= (sc * ta) * tb);
        }
    }
}

/// Of three fractions, if the first is not smaller than the second and the
/// second is greater than the third, the first is not smaller than the third.
proof fn lemma_above_greater(a: Similarity, b: Similarity, c: Similarity)
    requires
        b.total > 0,
        !exceeds(b, a),
        exceeds(b, c),
    ensures
        !exceeds(c, a),
{
    if a.total > 0 {
        let (sa, ta) = (a.shared as int, a.total as int);
        let (sb, tb) = (b.shared as int, b.total as int);
        let (sc, tc) = (c.shared as int, c.total as int);
        assert(sc * ta <= sa * tc) by (nonlinear_arith)
            requires
                ta > 0,
                tb > 0,
                tc > 0,
                sa >= 0,
                sb >= 0,
                sc >= 0,
                sb * ta <= sa * tb,
                sb * tc > sc * tb,
        {
            assert((sb * ta) * tc <= (sa * tb) * tc);
            assert((sc * tb) * ta <= (sb * tc) * ta);
            assert((sc * ta) * tb == (sc * tb) * ta);
            assert((sb * tc) * ta == (sb * ta) * tc);
            assert((sa * tc) * tb == (sa * tb) * tc);
            assert((sc * ta) * tb <= (sa * tc) * tb);
        }
    }
}

/// A coefficient between the extremes stays between them when another pair
/// is seen, and the coefficient of the pair seen lies between them afterwards.
proof fn lemma_observe(best: (ScoredPair, ScoredPair), u: u32, v: u32, t: Similarity, s: Similarity)
    requires
        defined_extremes(best),
    ensures
        defined_extremes(observe(best, u, v, t)),
        lies_between(best, s) || s == t ==> lies_between(observe(best, u, v, t), s),
{
    if lies_between(best, s) {
        if exceeds(t, best.0.2) {
            lemma_below_smaller(s, best.0.2, t);
        }
        if exceeds(best.1.2, t) && t.shared > 0 && s.shared > 0 {
            lemma_above_greater(s, best.1.2, t);
        }
    }
}

/// What `lemma_observe` says of one pair, for the rest of a row.
proof fn lemma_row(
    adj: Map<u32, Set<u32>>,
    order: Seq<u32>,
    i: int,
    end: int,
    best: (ScoredPair, ScoredPair),
    j: int,
    s: Similarity,
)
    requires
        defined_extremes(best),
        0 <= i < end <= order.len(),
    ensures
        defined_extremes(scan_row(adj, order, i, end, best)),
        lies_between(best, s) || (i < j < end && s == jaccard(
            neighbors(adj, order[i]),
            neighbors(adj, order[j]),
        )) ==> lies_between(scan_row(adj, order, i, end, best), s),
    decreases end - i,
{
    if end > i + 1 {
        let t = jaccard(neighbors(adj, order[i]), neighbors(adj, order[end - 1]));
        let before = scan_row(adj, order, i, end - 1, best);
        lemma_row(adj, order, i, end - 1, best, j, s);
        lemma_observe(before, order[i], order[end - 1], t, s);
    }
}

/// The coefficient of every pair of vertices of `order` lies between the
/// extremes: none is greater than that of the most similar pair, and none
/// but zero is smaller than that of the most dissimilar pair.
pub proof fn lemma_extremes_bound_every_pair(adj: Map<u32, Set<u32>>, order: Seq<u32>, i: int, j: int)
    requires
        0 <= i < j < order.len(),
    ensures
        lies_between(
            extreme_pairs(adj, order),
            jaccard(neighbors(adj, order[i]), neighbors(adj, order[j])),
        ),
{
    let s = jaccard(neighbors(adj, order[i]), neighbors(adj, order[j]));
    lemma_rows(adj, order, order.len() as int, i, j, s);
}

/// What `lemma_row` says of one pair, for all rows before `rows`.
proof fn lemma_rows(
    adj: Map<u32, Set<u32>>,
    order: Seq<u32>,
    rows: int,
    i: int,
    j: int,
    s: Similarity,
)
    requires
        0 <= rows <= order.len(),
        0 <= i < j < order.len(),
        s == jaccard(neighbors(adj, order[i]), neighbors(adj, order[j])),
    ensures
        defined_extremes(scan_pairs(adj, order, rows)),
        i < rows ==> lies_between(scan_pairs(adj, order, rows), s),
    decreases rows,
{
    if rows > 0 {
        lemma_rows(adj, order, rows - 1, i, j, s);
        let best = scan_pairs(adj, order, rows - 1);
        lemma_row(adj, order, rows - 1, order.len() as int, best, j, s);
    }
}

} // verus!
