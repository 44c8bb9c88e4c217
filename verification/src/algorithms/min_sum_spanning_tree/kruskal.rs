use crate::algorithms::bottleneck::{
    all_lower_bounds, has_least_bottleneck, is_lower_bound, lemma_absorbed_spans,
    lemma_least_bottleneck, reaches,
};
use crate::algorithms::util::{edges_within, updated_bottleneck, Util};
use crate::datastructures::graph::connectivity::{
    absorbed, acyclic, agrees, connected, contained, is_spanning_tree, lemma_agrees_spans,
    lemma_connected_mono, lemma_push_connects, lemma_push_keeps_acyclic, lemma_push_redundant,
    lemma_same_edges_same_reach, lemma_same_reach_spans, lemma_union_agrees, same_reach, spans,
    within,
};
use crate::datastructures::graph::edge::{
    cost_sum, ends_of, max_weight, min_weight, weight_sum, Edge, INFINITY, NEG_INFINITY,
};
use crate::datastructures::graph::mutable_graph::MutableGraph;
use crate::datastructures::uf::union_find::{
    lemma_single_class, lemma_united_count, representatives, UF,
};
use vstd::pervasive::unreached;
use vstd::prelude::*;
use vstd::relations::{sorted_by, total_ordering};
use vstd::seq_lib::lemma_sorted_unique;

verus! {

/// Stands for a sum above every sum.
pub const INFINITE_SUM: i128 = 170141183460469231731687303715884105727;

/// What a spanning tree is to be cheapest in.
#[derive(Debug, Clone, Copy, PartialEq, Eq, Structural)]
pub enum CalculationType {
    Cost,
    Weight,
}

/// Whether the forest that was found spans the graph.
#[derive(Debug, Clone, Copy, PartialEq, Eq, Structural)]
pub enum ConnectionType {
    Connected,
    Disconnected,
}

/// The number by which an edge is ranked.
pub open spec fn key(e: Edge, c: CalculationType) -> int {
    match c {
        CalculationType::Cost => e.cost as int,
        CalculationType::Weight => e.weight as int,
    }
}

/// The sum of the keys.
pub open spec fn key_sum(es: Seq<Edge>, c: CalculationType) -> int {
    match c {
        CalculationType::Cost => cost_sum(es),
        CalculationType::Weight => weight_sum(es),
    }
}

/// The order in which edges are scanned: by key, then by the ends, then by the fields
/// that are left, so that no two different edges tie.
pub open spec fn edge_leq(a: Edge, b: Edge, c: CalculationType) -> bool {
    if key(a, c) != key(b, c) {
        key(a, c) < key(b, c)
    } else if a.either != b.either {
        a.either < b.either
    } else if a.other != b.other {
        a.other < b.other
    } else if a.weight != b.weight {
        a.weight < b.weight
    } else if a.upgraded_weight != b.upgraded_weight {
        a.upgraded_weight < b.upgraded_weight
    } else if a.cost != b.cost {
        a.cost < b.cost
    } else if a.or_either != b.or_either {
        a.or_either < b.or_either
    } else if a.or_other != b.or_other {
        a.or_other < b.or_other
    } else if a.or_weight != b.or_weight {
        a.or_weight < b.or_weight
    } else {
        !a.upgraded || b.upgraded
    }
}

/// `edge_leq` for one way of ranking, as a relation.
pub open spec fn precedes(c: CalculationType) -> spec_fn(Edge, Edge) -> bool {
    |a: Edge, b: Edge| edge_leq(a, b, c)
}

/// The edges in scanning order.
pub open spec fn sorted_edges(es: Seq<Edge>, c: CalculationType) -> Seq<Edge> {
    es.sort_by(precedes(c))
}

/// The forest that a scan of `es` in its order collects: an edge is taken exactly when
/// the edges taken before it do not connect its ends.
pub open spec fn greedy_forest(es: Seq<Edge>) -> Seq<Edge>
    decreases es.len(),
{
    if es.len() == 0 {
        Seq::empty()
    } else {
        let before = greedy_forest(es.drop_last());
        let e = es.last();
        if connected(ends_of(before), e.either as int, e.other as int) {
            before
        } else {
            before.push(e)
        }
    }
}

/// The forest collected from the edges `es` scanned in the order of `c`.
pub open spec fn forest_of(es: Seq<Edge>, c: CalculationType) -> Seq<Edge> {
    greedy_forest(sorted_edges(es, c))
}

/// Whether the first edge in scanning order has a weight below zero: then weights are
/// taken to be inverted, and the bottleneck is the largest weight.
pub open spec fn inverse_regime(es: Seq<Edge>) -> bool {
    es.len() > 0 && es[0].weight < 0
}

/// The bottleneck of a set of edges: the largest weight where weights are inverted, the
/// smallest where they are not.
pub open spec fn bottleneck_of(es: Seq<Edge>, inverse: bool) -> int {
    if inverse {
        max_weight(es)
    } else {
        min_weight(es)
    }
}

/// The sum of the keys of the forest collected from `es`.
pub open spec fn forest_sum(es: Seq<Edge>, c: CalculationType) -> int {
    key_sum(forest_of(es, c), c)
}

/// The bottleneck of the forest collected from `es`.
pub open spec fn forest_bottleneck(es: Seq<Edge>, c: CalculationType) -> int {
    bottleneck_of(forest_of(es, c), inverse_regime(sorted_edges(es, c)))
}

/// Whether the key sum of the forest goes above the budget while the forest is
/// collected: after some edge the sum of the keys so far is above it.
pub open spec fn exceeds(forest: Seq<Edge>, c: CalculationType, budget: int) -> bool {
    exists|k: int| 0 <= k <= forest.len() && key_sum(#[trigger] forest.take(k), c) > budget
}

/// The scanning order is total, and only equal edges tie.
pub proof fn lemma_precedes_total(c: CalculationType)
    ensures
        total_ordering(precedes(c)),
{
    let r = precedes(c);
    assert forall|x: Edge, y: Edge| #[trigger] r(x, y) && #[trigger] r(y, x) implies x == y by {
        assert(edge_leq(x, y, c) && edge_leq(y, x, c));
    }
    assert forall|x: Edge, y: Edge, z: Edge| #[trigger] r(x, y) && #[trigger] r(y, z) implies r(
        x,
        z,
    ) by {
        assert(edge_leq(x, y, c) && edge_leq(y, z, c));
    }
    assert forall|x: Edge, y: Edge| #[trigger] r(x, y) || #[trigger] r(y, x) by {
        assert(edge_leq(x, y, c) || edge_leq(y, x, c));
    }
    assert forall|x: Edge| #[trigger] r(x, x) by {
        assert(edge_leq(x, x, c));
    }
}

/// Sorting keeps the edges: each sorted edge is an edge of `es`, and each edge of `es`
/// is a sorted edge.
pub proof fn lemma_sorted_same_edges(es: Seq<Edge>, c: CalculationType)
    ensures
        sorted_edges(es, c).len() == es.len(),
        sorted_edges(es, c).to_multiset() == es.to_multiset(),
        sorted_by(sorted_edges(es, c), precedes(c)),
        forall|i: int| 0 <= i < es.len() ==> sorted_edges(es, c).contains(#[trigger] es[i]),
        forall|i: int| 0 <= i < es.len() ==> es.contains(#[trigger] sorted_edges(es, c)[i]),
{
    broadcast use vstd::seq_lib::group_to_multiset_ensures;

    lemma_precedes_total(c);
    es.lemma_sort_by_ensures(precedes(c));
    let s = sorted_edges(es, c);
    assert(s.to_multiset().len() == es.to_multiset().len());
    assert forall|i: int| 0 <= i < es.len() implies s.contains(#[trigger] es[i]) by {
        assert(es.contains(es[i]));
        assert(es.to_multiset().count(es[i]) > 0);
        assert(s.to_multiset().count(es[i]) > 0);
    }
    assert forall|i: int| 0 <= i < es.len() implies es.contains(#[trigger] s[i]) by {
        assert(s.contains(s[i]));
        assert(s.to_multiset().count(s[i]) > 0);
        assert(es.to_multiset().count(s[i]) > 0);
    }
}

/// The ends of `es` with one more edge are the ends of `es` with one more pair.
pub proof fn lemma_ends_push(es: Seq<Edge>, e: Edge)
    ensures
        ends_of(es.push(e)) == ends_of(es).push(e.ends()),
{
    assert(ends_of(es.push(e)) =~= ends_of(es).push(e.ends()));
}

/// Edge sets that hold each other's edges have ends that hold each other's pairs.
pub proof fn lemma_ends_contained(es: Seq<Edge>, es2: Seq<Edge>)
    requires
        forall|i: int| 0 <= i < es.len() ==> es2.contains(#[trigger] es[i]),
    ensures
        contained(ends_of(es), ends_of(es2)),
{
    assert forall|i: int| 0 <= i < ends_of(es).len() implies ends_of(es2).contains(
        #[trigger] ends_of(es)[i],
    ) by {
        assert(es2.contains(es[i]));
        let j = choose|j: int| 0 <= j < es2.len() && es2[j] == es[i];
        assert(ends_of(es2)[j] == ends_of(es)[i]);
    }
}

/// One more pair on both sides keeps two sets of edges connecting the same nodes.
pub proof fn lemma_same_reach_push(es: Seq<(int, int)>, es2: Seq<(int, int)>, e: (int, int))
    requires
        same_reach(es, es2),
    ensures
        same_reach(es.push(e), es2.push(e)),
{
    assert forall|a: int, b: int|
        #![trigger connected(es.push(e), a, b)]
        #![trigger connected(es2.push(e), a, b)]
        connected(es.push(e), a, b) <==> connected(es2.push(e), a, b) by {
        lemma_push_connects(es, e, a, b);
        lemma_push_connects(es2, e, a, b);
        assert(connected(es, a, b) <==> connected(es2, a, b));
        assert(connected(es, a, e.0) <==> connected(es2, a, e.0));
        assert(connected(es, a, e.1) <==> connected(es2, a, e.1));
        assert(connected(es, e.0, b) <==> connected(es2, e.0, b));
        assert(connected(es, e.1, b) <==> connected(es2, e.1, b));
    }
}

/// The collected forest has no cycle, connects what the scanned edges connect, and holds
/// scanned edges only.
pub proof fn lemma_greedy_forest(es: Seq<Edge>)
    ensures
        acyclic(ends_of(greedy_forest(es))),
        same_reach(ends_of(greedy_forest(es)), ends_of(es)),
        greedy_forest(es).len() <= es.len(),
        forall|i: int|
            0 <= i < greedy_forest(es).len() ==> es.contains(#[trigger] greedy_forest(es)[i]),
    decreases es.len(),
{
    let forest = greedy_forest(es);
    if es.len() == 0 {
        assert(ends_of(es) =~= ends_of(forest));
    } else {
        let rest = es.drop_last();
        let e = es.last();
        let before = greedy_forest(rest);
        lemma_greedy_forest(rest);
        assert(es =~= rest.push(e));
        lemma_ends_push(rest, e);
        assert forall|i: int| 0 <= i < forest.len() implies es.contains(#[trigger] forest[i]) by {
            if i < before.len() {
                assert(rest.contains(before[i]));
                let j = choose|j: int| 0 <= j < rest.len() && rest[j] == before[i];
                assert(es[j] == before[i]);
            } else {
                assert(es[es.len() - 1] == e);
            }
        }
        if connected(ends_of(before), e.either as int, e.other as int) {
            assert(connected(ends_of(rest), e.either as int, e.other as int));
            lemma_push_redundant(ends_of(rest), e.ends());
        } else {
            lemma_ends_push(before, e);
            lemma_push_keeps_acyclic(ends_of(before), e.ends());
            lemma_same_reach_push(ends_of(before), ends_of(rest), e.ends());
        }
    }
}

/// The bottleneck of a set with one more edge.
pub proof fn lemma_bottleneck_push(es: Seq<Edge>, e: Edge, inverse: bool)
    ensures
        bottleneck_of(es.push(e), inverse) == updated_bottleneck(
            bottleneck_of(es, inverse),
            e.weight as int,
            inverse,
        ),
        key_sum(es.push(e), CalculationType::Cost) == key_sum(es, CalculationType::Cost) + e.cost,
        key_sum(es.push(e), CalculationType::Weight) == key_sum(es, CalculationType::Weight)
            + e.weight,
        i64::MIN <= bottleneck_of(es, inverse) <= i64::MAX,
    decreases es.len(),
{
    assert(es.push(e).drop_last() =~= es);
    if es.len() > 0 {
        lemma_bottleneck_push(es.drop_last(), es.last(), inverse);
        assert(es.drop_last().push(es.last()) =~= es);
    }
}

/// What the scan has collected after `k` edges is the beginning of what it collects in
/// the end.
pub proof fn lemma_forest_grows(es: Seq<Edge>, k: int)
    requires
        0 <= k <= es.len(),
    ensures
        greedy_forest(es.take(k)).len() <= greedy_forest(es).len(),
        greedy_forest(es.take(k)) == greedy_forest(es).take(greedy_forest(es.take(k)).len() as int),
    decreases es.len(),
{
    if k == es.len() {
        assert(es.take(k) =~= es);
        assert(greedy_forest(es).take(greedy_forest(es).len() as int) =~= greedy_forest(es));
    } else {
        let rest = es.drop_last();
        assert(es.take(k) =~= rest.take(k));
        lemma_forest_grows(rest, k);
        let m = greedy_forest(rest.take(k)).len() as int;
        assert(greedy_forest(es).take(m) =~= greedy_forest(rest).take(m));
    }
}

/// The edge at place `i` of the collected forest was scanned at some place `k`, when the
/// forest had `i` edges and the edges scanned before did not connect its ends.
pub open spec fn is_taken_at(es: Seq<Edge>, i: int, k: int) -> bool {
    &&& 0 <= k < es.len()
    &&& greedy_forest(es.take(k)).len() == i
    &&& greedy_forest(es)[i] == es[k]
    &&& !connected(ends_of(es.take(k)), es[k].either as int, es[k].other as int)
}

/// Every edge of the collected forest was taken at some place of the scan.
pub proof fn lemma_taken_somewhere(es: Seq<Edge>, i: int)
    requires
        0 <= i < greedy_forest(es).len(),
    ensures
        exists|k: int| is_taken_at(es, i, k),
    decreases es.len(),
{
    let rest = es.drop_last();
    let last = es.len() - 1;
    assert(es.take(last) =~= rest);
    if i < greedy_forest(rest).len() {
        lemma_taken_somewhere(rest, i);
        let k = choose|k: int| is_taken_at(rest, i, k);
        assert(es.take(k) =~= rest.take(k));
        assert(is_taken_at(es, i, k));
    } else {
        lemma_greedy_forest(rest);
        assert(is_taken_at(es, i, last));
    }
}

/// An edge that is scanned when the edges before it do not connect its ends is
/// collected.
pub proof fn lemma_taken_when_apart(es: Seq<Edge>, k: int)
    requires
        0 <= k < es.len(),
        !connected(ends_of(es.take(k)), es[k].either as int, es[k].other as int),
    ensures
        greedy_forest(es).contains(es[k]),
{
    let part = es.take(k + 1);
    assert(part.drop_last() =~= es.take(k));
    assert(part.last() == es[k]);
    lemma_greedy_forest(es.take(k));
    let now = greedy_forest(part);
    assert(now == greedy_forest(es.take(k)).push(es[k]));
    lemma_forest_grows(es, k + 1);
    let m = now.len() as int;
    assert(greedy_forest(es).take(m)[m - 1] == es[k]);
    assert(greedy_forest(es)[m - 1] == es[k]);
}

/// Where the edges are in scanning order, an edge with a smaller key than another
/// stands before it.
pub proof fn lemma_sorted_position(es: Seq<Edge>, c: CalculationType, j: int, k: int)
    requires
        sorted_by(es, precedes(c)),
        0 <= j < es.len(),
        0 <= k < es.len(),
        key(es[j], c) < key(es[k], c),
    ensures
        j < k,
{
    if j > k {
        assert(precedes(c)(es[k], es[j]));
    }
}

/// Cut optimality: no edge of the graph whose ends the collected forest without one of
/// its edges leaves apart has a smaller key than that edge.
pub proof fn lemma_cut_optimality(es: Seq<Edge>, c: CalculationType, i: int, j: int)
    requires
        0 <= i < forest_of(es, c).len(),
        0 <= j < es.len(),
        !connected(
            ends_of(forest_of(es, c).remove(i)),
            es[j].either as int,
            es[j].other as int,
        ),
    ensures
        key(es[j], c) >= key(forest_of(es, c)[i], c),
{
    let sorted = sorted_edges(es, c);
    let forest = greedy_forest(sorted);
    lemma_sorted_same_edges(es, c);
    lemma_taken_somewhere(sorted, i);
    let k = choose|k: int| is_taken_at(sorted, i, k);
    assert(sorted.contains(es[j]));
    let m = choose|m: int| 0 <= m < sorted.len() && sorted[m] == es[j];
    if key(es[j], c) < key(forest[i], c) {
        lemma_sorted_position(sorted, c, m, k);
        // what was collected up to and with place m connects the ends of the edge there
        let upto = greedy_forest(sorted.take(m + 1));
        lemma_greedy_forest(sorted.take(m + 1));
        assert(sorted.take(m + 1)[m] == sorted[m]);
        assert(ends_of(sorted.take(m + 1))[m] == sorted[m].ends());
        crate::datastructures::graph::connectivity::lemma_edge_connects(ends_of(sorted.take(m + 1)), m);
        assert(connected(ends_of(upto), es[j].either as int, es[j].other as int));
        // and it is a part of the forest before place i
        assert(sorted.take(k).take(m + 1) =~= sorted.take(m + 1));
        lemma_forest_grows(sorted.take(k), m + 1);
        lemma_forest_grows(sorted, k);
        let before = greedy_forest(sorted.take(k));
        assert(before == forest.take(i));
        assert(contained(ends_of(upto), ends_of(forest.remove(i)))) by {
            assert forall|x: int| 0 <= x < ends_of(upto).len() implies ends_of(
                forest.remove(i),
            ).contains(#[trigger] ends_of(upto)[x]) by {
                assert(upto[x] == before[x]);
                assert(before[x] == forest[x]);
                assert(forest.remove(i)[x] == forest[x]);
                assert(ends_of(forest.remove(i))[x] == ends_of(upto)[x]);
            }
        }
        lemma_connected_mono(
            ends_of(upto),
            ends_of(forest.remove(i)),
            es[j].either as int,
            es[j].other as int,
        );
    }
}

/// The forest collected in the order of the weights has the least bottleneck: every
/// spanning set of edges of the graph holds an edge that weighs as much as any edge of
/// the forest.
pub proof fn lemma_weight_forest_least_bottleneck(es: Seq<Edge>, n: nat)
    requires
        forall|i: int| 0 <= i < es.len() ==> (#[trigger] es[i]).fits(n),
    ensures
        all_lower_bounds(es, n, forest_of(es, CalculationType::Weight)),
        has_least_bottleneck(es, n, forest_of(es, CalculationType::Weight)),
{
    let c = CalculationType::Weight;
    let sorted = sorted_edges(es, c);
    let forest = greedy_forest(sorted);
    lemma_sorted_same_edges(es, c);
    assert forall|i: int| 0 <= i < forest.len() implies is_lower_bound(
        es,
        n,
        (#[trigger] forest[i]).weight as int,
    ) by {
        lemma_taken_somewhere(sorted, i);
        let k = choose|k: int| is_taken_at(sorted, i, k);
        let part = sorted.take(k);
        assert(es.contains(sorted[k]));
        assert forall|t: Seq<Edge>| #[trigger]
            edges_within(t, es) && spans(ends_of(t), n) implies reaches(t, forest[i].weight as int) by {
            if !reaches(t, forest[i].weight as int) {
                assert(absorbed(ends_of(t), ends_of(part))) by {
                    assert forall|x: int| 0 <= x < ends_of(t).len() implies connected(
                        ends_of(part),
                        (#[trigger] ends_of(t)[x]).0,
                        ends_of(t)[x].1,
                    ) by {
                        assert(es.contains(t[x]));
                        let j = choose|j: int| 0 <= j < es.len() && es[j] == t[x];
                        assert(sorted.contains(es[j]));
                        let m = choose|m: int| 0 <= m < sorted.len() && sorted[m] == t[x];
                        assert(t[x].weight < forest[i].weight);
                        lemma_sorted_position(sorted, c, m, k);
                        assert(part[m] == sorted[m]);
                        assert(ends_of(part)[m] == t[x].ends());
                        crate::datastructures::graph::connectivity::lemma_edge_connects(
                            ends_of(part),
                            m,
                        );
                    }
                }
                lemma_absorbed_spans(ends_of(t), ends_of(part), n);
                assert(connected(ends_of(part), sorted[k].either as int, sorted[k].other as int));
            }
        }
    }
    lemma_least_bottleneck(es, n, forest);
}

/// The edge at `j` of the graph does not undercut the tree edge at `i`: where the tree
/// without that edge leaves its ends apart, its key is no smaller.
pub open spec fn respects_cut(es: Seq<Edge>, tree: Seq<Edge>, c: CalculationType, i: int, j: int) -> bool {
    !connected(ends_of(tree.remove(i)), es[j].either as int, es[j].other as int) ==> key(es[j], c)
        >= key(tree[i], c)
}

/// `tree` passes for a cheapest spanning forest of the graph with the key sum `sum`: it
/// is empty, or its keys add up to `sum`, it has no cycle, and no edge of the graph
/// undercuts one of its edges.
pub open spec fn is_cut_optimal(es: Seq<Edge>, tree: Seq<Edge>, sum: int, c: CalculationType) -> bool {
    tree.len() == 0 || {
        &&& key_sum(tree, c) == sum
        &&& acyclic(ends_of(tree))
        &&& forall|i: int, j: int|
            0 <= i < tree.len() && 0 <= j < es.len() ==> #[trigger] respects_cut(es, tree, c, i, j)
    }
}

/// The forest that the scan collects passes for a cheapest spanning forest.
pub proof fn lemma_forest_is_cut_optimal(es: Seq<Edge>, c: CalculationType)
    ensures
        is_cut_optimal(es, forest_of(es, c), forest_sum(es, c), c),
{
    lemma_greedy_forest(sorted_edges(es, c));
    assert forall|i: int, j: int|
        0 <= i < forest_of(es, c).len() && 0 <= j < es.len() implies #[trigger] respects_cut(
        es,
        forest_of(es, c),
        c,
        i,
        j,
    ) by {
        if !connected(
            ends_of(forest_of(es, c).remove(i)),
            es[j].either as int,
            es[j].other as int,
        ) {
            lemma_cut_optimality(es, c, i, j);
        }
    }
}

/// Sorting changes neither which nodes the edges join nor what they connect.
pub proof fn lemma_sorted_keeps_graph(es: Seq<Edge>, c: CalculationType, n: nat)
    ensures
        same_reach(ends_of(sorted_edges(es, c)), ends_of(es)),
        spans(ends_of(sorted_edges(es, c)), n) <==> spans(ends_of(es), n),
        (forall|i: int| 0 <= i < es.len() ==> (#[trigger] es[i]).fits(n)) ==> (forall|i: int|
            0 <= i < sorted_edges(es, c).len() ==> (#[trigger] sorted_edges(es, c)[i]).fits(n)),
{
    let s = sorted_edges(es, c);
    lemma_sorted_same_edges(es, c);
    lemma_ends_contained(es, s);
    lemma_ends_contained(s, es);
    lemma_same_edges_same_reach(ends_of(s), ends_of(es));
    lemma_same_reach_spans(ends_of(s), ends_of(es), n);
    if forall|i: int| 0 <= i < es.len() ==> (#[trigger] es[i]).fits(n) {
        assert forall|i: int| 0 <= i < s.len() implies (#[trigger] s[i]).fits(n) by {
            assert(es.contains(s[i]));
        }
    }
}

pub struct Kruskal();

/// Sorts with `sort_by_key` of the standard library, which orders by the keys that the
/// closure returns; tuples are ordered by their first parts, then by their second parts,
/// and so on, and `false` comes before `true`. Trusted: afterwards the same edges are
/// there, in scanning order.
#[verifier::external_body]
fn sort_edges(edges: &mut Vec<Edge>, calculation_type: &CalculationType)
    ensures
        sorted_by(final(edges)@, precedes(*calculation_type)),
        final(edges)@.to_multiset() == old(edges)@.to_multiset(),
{
    edges.sort_by_key(|e| Kruskal::scanning_rank(e, calculation_type));
}

impl Kruskal {
    /// The parts of an edge in the order in which `edge_leq` compares them.
    pub fn scanning_rank(e: &Edge, calculation_type: &CalculationType) -> (r: (
        (i64, usize, usize),
        (i64, i64, i64),
        (usize, usize, i64, bool),
    ))
        ensures
            r == (
                (key(*e, *calculation_type) as i64, e.either, e.other),
                (e.weight, e.upgraded_weight, e.cost),
                (e.or_either, e.or_other, e.or_weight, e.upgraded),
            ),
    {
        let k = match calculation_type {
            CalculationType::Cost => e.cost,
            CalculationType::Weight => e.weight,
        };
        ((k, e.either, e.other), (e.weight, e.upgraded_weight, e.cost), (
            e.or_either,
            e.or_other,
            e.or_weight,
            e.upgraded,
        ))
    }

    /// A spanning tree of least key sum, with that sum and the tree's bottleneck: the
    /// forest that a scan of the sorted edges collects. Where the graph is not connected
    /// there is no tree, and sum and bottleneck are infinite. The graph's edges are left
    /// in scanning order.
    pub fn run(graph: &mut MutableGraph, calculation_type: CalculationType) -> (r: (
        Option<MutableGraph>,
        i128,
        i64,
    ))
        requires
            old(graph).wf(),
        ensures
            final(graph).nodes == old(graph).nodes,
            final(graph).edges@ == sorted_edges(old(graph).edges@, calculation_type),
            final(graph).wf(),
            r.0 is Some <==> spans(ends_of(old(graph).edges@), old(graph).order()),
            r.0 matches Some(t) ==> {
                &&& t.wf()
                &&& t.nodes@ == old(graph).nodes@
                &&& t.edges@ == forest_of(old(graph).edges@, calculation_type)
                &&& r.1 == forest_sum(old(graph).edges@, calculation_type)
                &&& r.2 == forest_bottleneck(old(graph).edges@, calculation_type)
                &&& old(graph).order() >= 1 ==> is_spanning_tree(
                    ends_of(t.edges@),
                    old(graph).order(),
                )
            },
            r.0 is None ==> r.1 == INFINITE_SUM && r.2 == INFINITY,
    {
        proof {
            lemma_sorted_keeps_graph(graph.edges@, calculation_type, graph.order());
        }
        Self::sort_by_calculation_type(graph, &calculation_type);
        Self::sorted_build(graph, calculation_type)
    }

    /// A spanning tree of least key sum as `run` finds it, unless the sum of the keys
    /// goes above the budget while the tree is collected: then the scan stops, and there
    /// is no tree, as where the graph is not connected. The graph's edges are left in
    /// scanning order.
    pub fn run_with_budget(
        graph: &mut MutableGraph,
        calculation_type: CalculationType,
        budget: i64,
    ) -> (r: (Option<MutableGraph>, i128, i64))
        requires
            old(graph).wf(),
        ensures
            final(graph).nodes == old(graph).nodes,
            final(graph).edges@ == sorted_edges(old(graph).edges@, calculation_type),
            final(graph).wf(),
            r.0 is Some <==> spans(ends_of(old(graph).edges@), old(graph).order()) && !exceeds(
                forest_of(old(graph).edges@, calculation_type),
                calculation_type,
                budget as int,
            ),
            r.0 matches Some(t) ==> {
                &&& t.wf()
                &&& t.nodes@ == old(graph).nodes@
                &&& t.edges@ == forest_of(old(graph).edges@, calculation_type)
                &&& r.1 == forest_sum(old(graph).edges@, calculation_type)
                &&& r.1 <= budget
                &&& r.2 == forest_bottleneck(old(graph).edges@, calculation_type)
                &&& old(graph).order() >= 1 ==> is_spanning_tree(
                    ends_of(t.edges@),
                    old(graph).order(),
                )
            },
            r.0 is None ==> r.1 == INFINITE_SUM && r.2 == INFINITY,
    {
        proof {
            lemma_sorted_keeps_graph(graph.edges@, calculation_type, graph.order());
        }
        Self::sort_by_calculation_type(graph, &calculation_type);
        let n = graph.nodes.len();
        let mut st_edges: Vec<Edge> = Vec::new();
        let mut weight: i128 = 0;
        let inverse = graph.edges.len() > 0 && graph.edges[0].get_weight() < 0;
        let mut bottleneck: i64 = if inverse {
            NEG_INFINITY
        } else {
            INFINITY
        };
        let mut uf = match UF::new(n as i32) {
            Ok(uf) => uf,
            Err(_) => unreached(),
        };
        let ghost forest = greedy_forest(graph.edges@);
        proof {
            uf.lemma_view();
            crate::datastructures::graph::connectivity::lemma_labelling(
                Seq::<(int, int)>::empty(),
                n as nat,
            );
            crate::datastructures::graph::connectivity::lemma_acyclic_count(
                Seq::<(int, int)>::empty(),
                n as nat,
            );
            assert(ends_of(st_edges@) =~= Seq::<(int, int)>::empty());
            assert(graph.edges@.take(0) =~= Seq::<Edge>::empty());
            assert(st_edges@.take(0) =~= st_edges@);
        }
        if weight > budget as i128 {
            proof {
                assert(forest.take(0) =~= Seq::<Edge>::empty());
            }
            return (None, INFINITE_SUM, INFINITY);
        }
        let mut i: usize = 0;
        while i < graph.edges.len()
            invariant
                i <= graph.edges@.len(),
                graph.wf(),
                n == graph.order(),
                forest == greedy_forest(graph.edges@),
                graph.nodes == old(graph).nodes,
                graph.edges@ == sorted_edges(old(graph).edges@, calculation_type),
                inverse == inverse_regime(graph.edges@),
                uf.wf(),
                uf@.len() == n,
                agrees(uf@, ends_of(st_edges@)),
                representatives(uf@).len() + st_edges@.len() == n,
                st_edges@ == greedy_forest(graph.edges@.take(i as int)),
                st_edges@.len() <= i,
                weight == key_sum(st_edges@, calculation_type),
                -(st_edges@.len() * 0x8000_0000_0000_0000) <= weight <= st_edges@.len()
                    * 0x7fff_ffff_ffff_ffff,
                bottleneck == bottleneck_of(st_edges@, inverse),
                forall|k: int|
                    0 <= k <= st_edges@.len() ==> key_sum(#[trigger] st_edges@.take(k), calculation_type)
                        <= budget,
            decreases graph.edges@.len() - i,
        {
            let edge = graph.edges[i];
            let (v, w) = edge.endpoints();
            proof {
                assert(graph.edges@[i as int].fits(n as nat));
                assert(graph.edges@.take(i + 1).drop_last() =~= graph.edges@.take(i as int));
                assert(graph.edges@.take(i + 1).last() == edge);
                uf.lemma_view();
            }
            if !uf.connected(v, w) {
                let ghost before = st_edges@;
                proof {
                    lemma_union_agrees(uf@, ends_of(st_edges@), edge.ends());
                    lemma_united_count(uf@, v as int, w as int);
                    lemma_ends_push(st_edges@, edge);
                    lemma_bottleneck_push(st_edges@, edge, inverse);
                }
                uf.union(v, w);
                st_edges.push(edge);
                weight = weight + Self::key_of(&edge, &calculation_type) as i128;
                bottleneck = Util::update_bottleneck(bottleneck, &edge, inverse);
                if weight > budget as i128 {
                    proof {
                        lemma_forest_grows(graph.edges@, i + 1);
                        assert(forest.take(st_edges@.len() as int) == st_edges@);
                    }
                    return (None, INFINITE_SUM, INFINITY);
                }
                proof {
                    assert forall|k: int| 0 <= k <= st_edges@.len() implies key_sum(
                        #[trigger] st_edges@.take(k),
                        calculation_type,
                    ) <= budget by {
                        if k <= before.len() {
                            assert(st_edges@.take(k) =~= before.take(k));
                        } else {
                            assert(st_edges@.take(k) =~= st_edges@);
                        }
                    }
                }
            }
            i = i + 1;
        }
        proof {
            assert(graph.edges@.take(i as int) =~= graph.edges@);
            uf.lemma_view();
            lemma_agrees_spans(uf@, ends_of(st_edges@));
            lemma_greedy_forest(graph.edges@);
            lemma_same_reach_spans(ends_of(st_edges@), ends_of(graph.edges@), graph.order());
            lemma_single_class(uf@);
            Self::lemma_forest_fits(graph.edges@, graph.order());
            assert(st_edges@.take(st_edges@.len() as int) =~= st_edges@);
            lemma_sorted_keeps_graph(old(graph).edges@, calculation_type, graph.order());
        }
        if uf.count() > 1 {
            return (None, INFINITE_SUM, INFINITY);
        }
        let st = MutableGraph::new(graph.nodes_copy(), st_edges);
        (Some(st), weight, bottleneck)
    }

    /// The forest that a scan of the sorted edges collects, with the sum of its keys and
    /// its bottleneck, and whether it spans the graph. The graph's edges are left in
    /// scanning order.
    pub fn run_with_disconnected(graph: &mut MutableGraph, calculation_type: CalculationType) -> (r:
        (ConnectionType, MutableGraph, i128, i64))
        requires
            old(graph).wf(),
        ensures
            final(graph).nodes == old(graph).nodes,
            final(graph).edges@ == sorted_edges(old(graph).edges@, calculation_type),
            final(graph).wf(),
            r.0 is Connected <==> spans(ends_of(old(graph).edges@), old(graph).order()),
            r.1.wf(),
            r.1.nodes@ == old(graph).nodes@,
            r.1.edges@ == forest_of(old(graph).edges@, calculation_type),
            r.2 == forest_sum(old(graph).edges@, calculation_type),
            r.3 == forest_bottleneck(old(graph).edges@, calculation_type),
            r.0 is Connected && old(graph).order() >= 1 ==> is_spanning_tree(
                ends_of(r.1.edges@),
                old(graph).order(),
            ),
    {
        proof {
            lemma_sorted_keeps_graph(graph.edges@, calculation_type, graph.order());
        }
        Self::sort_by_calculation_type(graph, &calculation_type);
        Self::sorted_build_with_disconnected_components(graph, calculation_type)
    }

    /// The key of an edge.
    pub fn key_of(e: &Edge, calculation_type: &CalculationType) -> (r: i64)
        ensures
            r == key(*e, *calculation_type),
    {
        match calculation_type {
            CalculationType::Cost => e.get_cost(),
            CalculationType::Weight => e.get_weight(),
        }
    }

    /// Whether `st` passes for a cheapest spanning forest of `graph` with the key sum
    /// `weight`. Slow: it looks at every edge of the graph for every edge of the tree.
    pub fn check_optimality(
        graph: &MutableGraph,
        st: &MutableGraph,
        weight: i128,
        calculation_type: CalculationType,
    ) -> (r: bool)
        requires
            graph.wf(),
            st.wf(),
            st.order() == graph.order(),
        ensures
            r == is_cut_optimal(graph.edges@, st.edges@, weight as int, calculation_type),
    {
        if st.edges.len() == 0 {
            return true;
        }
        let n = st.nodes.len();
        // the sum of the keys
        let mut total_weight: i128 = 0;
        let mut i: usize = 0;
        while i < st.edges.len()
            invariant
                i <= st.edges@.len(),
                total_weight == key_sum(st.edges@.take(i as int), calculation_type),
                -(i * 0x8000_0000_0000_0000) <= total_weight <= i * 0x7fff_ffff_ffff_ffff,
            decreases st.edges@.len() - i,
        {
            proof {
                lemma_bottleneck_push(st.edges@.take(i as int), st.edges@[i as int], true);
                assert(st.edges@.take(i + 1) =~= st.edges@.take(i as int).push(st.edges@[i as int]));
            }
            total_weight = total_weight + Self::key_of(&st.edges[i], &calculation_type) as i128;
            i = i + 1;
        }
        proof {
            assert(st.edges@.take(i as int) =~= st.edges@);
        }
        if weight != total_weight {
            return false;
        }
        // no cycle
        let (_, closing) = st.components();
        if closing != 0 {
            return false;
        }
        // no edge of the graph undercuts an edge of the tree
        let mut i: usize = 0;
        while i < st.edges.len()
            invariant
                i <= st.edges@.len(),
                graph.wf(),
                st.wf(),
                n == st.order(),
                st.order() == graph.order(),
                forall|a: int, b: int|
                    0 <= a < i && 0 <= b < graph.edges@.len() ==> #[trigger] respects_cut(
                        graph.edges@,
                        st.edges@,
                        calculation_type,
                        a,
                        b,
                    ),
            decreases st.edges@.len() - i,
        {
            // the classes that the tree without its edge at `i` leaves
            let mut uf = match UF::new(n as i32) {
                Ok(uf) => uf,
                Err(_) => unreached(),
            };
            let ghost others = st.edges@.remove(i as int);
            let mut k: usize = 0;
            proof {
                crate::datastructures::graph::connectivity::lemma_labelling(
                    Seq::<(int, int)>::empty(),
                    n as nat,
                );
                assert(ends_of(others.take(0)) =~= Seq::<(int, int)>::empty());
            }
            while k < st.edges.len()
                invariant
                    k <= st.edges@.len(),
                    i < st.edges@.len(),
                    st.wf(),
                    n == st.order(),
                    others == st.edges@.remove(i as int),
                    uf.wf(),
                    uf@.len() == n,
                    agrees(
                        uf@,
                        ends_of(
                            others.take(
                                if k <= i {
                                    k as int
                                } else {
                                    k - 1
                                },
                            ),
                        ),
                    ),
                decreases st.edges@.len() - k,
            {
                if k != i {
                    let (v, w) = st.edges[k].endpoints();
                    proof {
                        let e = st.edges@[k as int];
                        assert(e.fits(n as nat));
                        uf.lemma_view();
                        let at = if k < i {
                            k as int
                        } else {
                            k - 1
                        };
                        assert(others[at] == e);
                        lemma_union_agrees(uf@, ends_of(others.take(at)), e.ends());
                        assert(ends_of(others.take(at + 1)) =~= ends_of(others.take(at)).push(e.ends()));
                    }
                    uf.union(v, w);
                }
                k = k + 1;
            }
            proof {
                assert(others.take(st.edges@.len() - 1) =~= others);
            }
            let tree_key = Self::key_of(&st.edges[i], &calculation_type);
            let mut j: usize = 0;
            while j < graph.edges.len()
                invariant
                    j <= graph.edges@.len(),
                    i < st.edges@.len(),
                    graph.wf(),
                    st.order() == graph.order(),
                    n == st.order(),
                    uf.wf(),
                    uf@.len() == n,
                    agrees(uf@, ends_of(st.edges@.remove(i as int))),
                    tree_key == key(st.edges@[i as int], calculation_type),
                    forall|b: int|
                        0 <= b < j ==> #[trigger] respects_cut(
                            graph.edges@,
                            st.edges@,
                            calculation_type,
                            i as int,
                            b,
                        ),
                decreases graph.edges@.len() - j,
            {
                let (v, w) = graph.edges[j].endpoints();
                proof {
                    assert(graph.edges@[j as int].fits(n as nat));
                }
                if !uf.connected(v, w) {
                    if Self::key_of(&graph.edges[j], &calculation_type) < tree_key {
                        proof {
                            assert(!respects_cut(
                                graph.edges@,
                                st.edges@,
                                calculation_type,
                                i as int,
                                j as int,
                            ));
                        }
                        return false;
                    }
                }
                j = j + 1;
            }
            i = i + 1;
        }
        true
    }

    /// Scans the edges in their order and collects those that join two components.
    /// Returns the components, the collected edges, the sum of their keys and their
    /// bottleneck.
    fn construct(graph: &MutableGraph, calculation_type: CalculationType) -> (r: (
        UF,
        Vec<Edge>,
        i128,
        i64,
    ))
        requires
            graph.wf(),
        ensures
            r.0.wf(),
            r.0@.len() == graph.order(),
            agrees(r.0@, ends_of(r.1@)),
            representatives(r.0@).len() + r.1@.len() == graph.order(),
            r.1@ == greedy_forest(graph.edges@),
            r.2 == key_sum(r.1@, calculation_type),
            r.3 == bottleneck_of(r.1@, inverse_regime(graph.edges@)),
    {
        let n = graph.nodes.len();
        let mut st_edges: Vec<Edge> = Vec::new();
        let mut weight: i128 = 0;
        let inverse = graph.edges.len() > 0 && graph.edges[0].get_weight() < 0;
        let mut bottleneck: i64 = if inverse {
            NEG_INFINITY
        } else {
            INFINITY
        };
        let mut uf = match UF::new(n as i32) {
            Ok(uf) => uf,
            Err(_) => unreached(),
        };
        proof {
            crate::datastructures::graph::connectivity::lemma_labelling(
                Seq::<(int, int)>::empty(),
                n as nat,
            );
            crate::datastructures::graph::connectivity::lemma_acyclic_count(
                Seq::<(int, int)>::empty(),
                n as nat,
            );
            assert(ends_of(st_edges@) =~= Seq::<(int, int)>::empty());
            assert(graph.edges@.take(0) =~= Seq::<Edge>::empty());
        }
        let mut i: usize = 0;
        while i < graph.edges.len()
            invariant
                i <= graph.edges@.len(),
                graph.wf(),
                n == graph.order(),
                inverse == inverse_regime(graph.edges@),
                uf.wf(),
                uf@.len() == n,
                agrees(uf@, ends_of(st_edges@)),
                representatives(uf@).len() + st_edges@.len() == n,
                st_edges@ == greedy_forest(graph.edges@.take(i as int)),
                st_edges@.len() <= i,
                weight == key_sum(st_edges@, calculation_type),
                -(st_edges@.len() * 0x8000_0000_0000_0000) <= weight <= st_edges@.len()
                    * 0x7fff_ffff_ffff_ffff,
                bottleneck == bottleneck_of(st_edges@, inverse),
            decreases graph.edges@.len() - i,
        {
            let edge = graph.edges[i];
            let (v, w) = edge.endpoints();
            proof {
                assert(graph.edges@[i as int].fits(n as nat));
                assert(graph.edges@.take(i + 1).drop_last() =~= graph.edges@.take(i as int));
                assert(graph.edges@.take(i + 1).last() == edge);
                uf.lemma_view();
            }
            if !uf.connected(v, w) {
                proof {
                    lemma_union_agrees(uf@, ends_of(st_edges@), edge.ends());
                    lemma_united_count(uf@, v as int, w as int);
                    lemma_ends_push(st_edges@, edge);
                    lemma_bottleneck_push(st_edges@, edge, inverse);
                }
                uf.union(v, w);
                st_edges.push(edge);
                match calculation_type {
                    CalculationType::Cost => {
                        weight = weight + edge.get_cost() as i128;
                        bottleneck = Util::update_bottleneck(bottleneck, &edge, inverse);
                    },
                    CalculationType::Weight => {
                        weight = weight + edge.get_weight() as i128;
                        bottleneck = Util::update_bottleneck(bottleneck, &edge, inverse);
                    },
                }
            }
            i = i + 1;
        }
        proof {
            assert(graph.edges@.take(i as int) =~= graph.edges@);
        }
        (uf, st_edges, weight, bottleneck)
    }

    /// The spanning tree that a scan of the edges in their order collects, where the
    /// graph is connected.
    fn sorted_build(graph: &MutableGraph, calculation_type: CalculationType) -> (r: (
        Option<MutableGraph>,
        i128,
        i64,
    ))
        requires
            graph.wf(),
        ensures
            r.0 is Some <==> spans(ends_of(graph.edges@), graph.order()),
            r.0 matches Some(t) ==> {
                &&& t.wf()
                &&& t.nodes@ == graph.nodes@
                &&& t.edges@ == greedy_forest(graph.edges@)
                &&& r.1 == key_sum(t.edges@, calculation_type)
                &&& r.2 == bottleneck_of(t.edges@, inverse_regime(graph.edges@))
                &&& graph.order() >= 1 ==> is_spanning_tree(ends_of(t.edges@), graph.order())
            },
            r.0 is None ==> r.1 == INFINITE_SUM && r.2 == INFINITY,
    {
        let (uf, st_edges, weight, bottleneck) = Self::construct(graph, calculation_type);
        proof {
            uf.lemma_view();
            lemma_agrees_spans(uf@, ends_of(st_edges@));
            lemma_greedy_forest(graph.edges@);
            lemma_same_reach_spans(ends_of(st_edges@), ends_of(graph.edges@), graph.order());
            lemma_single_class(uf@);
            Self::lemma_forest_fits(graph.edges@, graph.order());
        }
        if uf.count() > 1 {
            return (None, INFINITE_SUM, INFINITY);
        }
        let st = MutableGraph::new(graph.nodes_copy(), st_edges);
        (Some(st), weight, bottleneck)
    }

    /// The forest that a scan of the edges in their order collects, and whether it spans
    /// the graph.
    fn sorted_build_with_disconnected_components(
        graph: &MutableGraph,
        calculation_type: CalculationType,
    ) -> (r: (ConnectionType, MutableGraph, i128, i64))
        requires
            graph.wf(),
        ensures
            r.0 is Connected <==> spans(ends_of(graph.edges@), graph.order()),
            r.1.wf(),
            r.1.nodes@ == graph.nodes@,
            r.1.edges@ == greedy_forest(graph.edges@),
            r.2 == key_sum(r.1.edges@, calculation_type),
            r.3 == bottleneck_of(r.1.edges@, inverse_regime(graph.edges@)),
            r.0 is Connected && graph.order() >= 1 ==> is_spanning_tree(
                ends_of(r.1.edges@),
                graph.order(),
            ),
    {
        let (uf, st_edges, weight, bottleneck) = Self::construct(graph, calculation_type);
        proof {
            uf.lemma_view();
            lemma_agrees_spans(uf@, ends_of(st_edges@));
            lemma_greedy_forest(graph.edges@);
            lemma_same_reach_spans(ends_of(st_edges@), ends_of(graph.edges@), graph.order());
            lemma_single_class(uf@);
            Self::lemma_forest_fits(graph.edges@, graph.order());
        }
        let st = MutableGraph::new(graph.nodes_copy(), st_edges);
        if uf.count() > 1 {
            return (ConnectionType::Disconnected, st, weight, bottleneck);
        }
        (ConnectionType::Connected, st, weight, bottleneck)
    }

    /// The collected forest joins nodes of the graph where the scanned edges do.
    pub proof fn lemma_forest_fits(es: Seq<Edge>, n: nat)
        requires
            forall|i: int| 0 <= i < es.len() ==> (#[trigger] es[i]).fits(n),
        ensures
            forall|i: int|
                0 <= i < greedy_forest(es).len() ==> (#[trigger] greedy_forest(es)[i]).fits(n),
            within(ends_of(greedy_forest(es)), n),
    {
        lemma_greedy_forest(es);
        let f = greedy_forest(es);
        assert forall|i: int| 0 <= i < f.len() implies (#[trigger] f[i]).fits(n) by {
            assert(es.contains(f[i]));
        }
        assert forall|i: int| 0 <= i < ends_of(f).len() implies 0 <= (#[trigger] ends_of(f)[i]).0
            < n && 0 <= ends_of(f)[i].1 < n by {
            assert(f[i].fits(n));
        }
    }

    /// Puts the edges of the graph in scanning order.
    fn sort_by_calculation_type(graph: &mut MutableGraph, calculation_type: &CalculationType)
        ensures
            final(graph).nodes == old(graph).nodes,
            final(graph).edges@ == sorted_edges(old(graph).edges@, *calculation_type),
    {
        let ghost before = graph.edges@;
        sort_edges(&mut graph.edges, calculation_type);
        proof {
            lemma_precedes_total(*calculation_type);
            before.lemma_sort_by_ensures(precedes(*calculation_type));
            lemma_sorted_unique(
                graph.edges@,
                sorted_edges(before, *calculation_type),
                precedes(*calculation_type),
            );
        }
    }
}

} // verus!
