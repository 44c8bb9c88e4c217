use crate::algorithms::min_sum_spanning_tree::kruskal::{
    forest_bottleneck, forest_of, forest_sum, lemma_greedy_forest, lemma_sorted_same_edges,
    sorted_edges, CalculationType,
};
use crate::datastructures::graph::connectivity::{is_spanning_tree, spans};
use crate::datastructures::graph::edge::{cost_sum, ends_of, max_weight, Edge};
use crate::datastructures::graph::mutable_graph::{weight_at_most, MutableGraph};
use crate::datastructures::graph::node::Node;
use fxhash::FxHashSet;
use vstd::prelude::*;

verus! {

/// `fxhash::FxHasher`, the hasher of the sets of this module. Nothing is said of it.
#[verifier::external_type_specification]
#[verifier::external_body]
pub struct ExFxHasher(fxhash::FxHasher);

/// `std::hash::BuildHasherDefault`, which makes a hasher by `Default`. Nothing is said
/// of it.
#[verifier::external_type_specification]
#[verifier::external_body]
#[verifier::reject_recursive_types(H)]
pub struct ExBuildHasherDefault<H>(std::hash::BuildHasherDefault<H>);

/// The bottleneck `current` after one more edge of weight `w`.
pub open spec fn updated_bottleneck(current: int, w: int, inverse: bool) -> int {
    if inverse {
        if w > current {
            w
        } else {
            current
        }
    } else {
        if w < current {
            w
        } else {
            current
        }
    }
}

/// The weights of the edges of `es` that are above `lo` and not above `hi`.
pub open spec fn weights_between(es: Seq<Edge>, lo: int, hi: int) -> Set<i64> {
    Set::new(
        |w: i64| lo < w <= hi && exists|i: int| 0 <= i < es.len() && (#[trigger] es[i]).weight == w,
    )
}

/// The weights of the edges of `es` that are `t` at least.
pub open spec fn weights_from(es: Seq<Edge>, t: int) -> Set<i64> {
    Set::new(|w: i64| t <= w && exists|i: int| 0 <= i < es.len() && (#[trigger] es[i]).weight == w)
}

/// Whether a number is above `lo` and not above `hi`.
pub open spec fn is_between(lo: int, hi: int) -> spec_fn(i64) -> bool {
    |w: i64| lo < w <= hi
}

/// By what two edges are told apart when edge sets are united: the ends, both weights
/// and the cost.
pub open spec fn identity(e: Edge) -> (usize, usize, i64, i64, i64) {
    (e.either, e.other, e.weight, e.upgraded_weight, e.cost)
}

/// The identities of all edges of `es`.
pub open spec fn identities(es: Seq<Edge>) -> Set<(usize, usize, i64, i64, i64)> {
    Set::new(
        |k: (usize, usize, i64, i64, i64)|
            exists|i: int| 0 <= i < es.len() && identity(#[trigger] es[i]) == k,
    )
}

/// The edges of `es` in their order, without those whose identity an earlier edge has.
pub open spec fn first_occurrences(es: Seq<Edge>) -> Seq<Edge>
    decreases es.len(),
{
    if es.len() == 0 {
        Seq::empty()
    } else if identities(es.drop_last()).contains(identity(es.last())) {
        first_occurrences(es.drop_last())
    } else {
        first_occurrences(es.drop_last()).push(es.last())
    }
}

/// The copy of an edge that is not upgraded: its weight, at no cost.
pub open spec fn primary_copy(e: Edge) -> Edge {
    Edge {
        either: e.either,
        other: e.other,
        weight: e.weight,
        upgraded_weight: 0,
        cost: 0,
        or_either: e.either,
        or_other: e.other,
        or_weight: e.weight,
        upgraded: false,
    }
}

/// The copy of an edge that is upgraded: its upgraded weight, at its cost.
pub open spec fn upgraded_copy(e: Edge) -> Edge {
    Edge {
        either: e.either,
        other: e.other,
        weight: e.upgraded_weight,
        upgraded_weight: 0,
        cost: e.cost,
        or_either: e.either,
        or_other: e.other,
        or_weight: e.weight,
        upgraded: true,
    }
}

/// Each edge followed by its upgraded copy.
pub open spec fn duplicated(es: Seq<Edge>) -> Seq<Edge> {
    Seq::new(
        2 * es.len(),
        |i: int|
            if i % 2 == 0 {
                primary_copy(es[i / 2])
            } else {
                upgraded_copy(es[i / 2])
            },
    )
}

/// Whether the edges that weigh `pivot` at most span the `n` nodes with a cheapest
/// spanning tree that costs `budget` at most.
pub open spec fn feasible(es: Seq<Edge>, n: nat, pivot: int, budget: int) -> bool {
    let sub = es.filter(weight_at_most(pivot));
    spans(ends_of(sub), n) && forest_sum(sub, CalculationType::Cost) <= budget
}

/// `q` is the greatest number of `c`.
pub open spec fn greatest(c: Set<i64>, q: i64) -> bool {
    &&& c.contains(q)
    &&& forall|x: i64| c.contains(x) ==> x <= q
}

/// The graph has one node at most and no edge: its spanning tree is empty.
pub open spec fn is_trivial(graph: MutableGraph) -> bool {
    graph.nodes@.len() <= 1 && graph.edges@.len() == 0
}

/// The answer for a graph of one node at most and no edge: the empty tree, at cost 0 and
/// with bottleneck 0.
pub open spec fn is_trivial_answer(graph: MutableGraph, r: (Option<MutableGraph>, i128, i64)) -> bool {
    &&& r.0 matches Some(t)
    &&& t.nodes@ == graph.nodes@
    &&& t.edges@.len() == 0
    &&& r.1 == 0
    &&& r.2 == 0
}

/// What a probe at `pivot` hands back where it succeeds: the cheapest spanning tree of
/// the edges that weigh `pivot` at most, its cost and its bottleneck.
pub open spec fn is_probe_result(
    es: Seq<Edge>,
    nodes: Seq<Node>,
    pivot: int,
    t: MutableGraph,
    cost: int,
    bottleneck: int,
) -> bool {
    let sub = es.filter(weight_at_most(pivot));
    &&& t.wf()
    &&& t.nodes@ == nodes
    &&& t.edges@ == forest_of(sub, CalculationType::Cost)
    &&& cost == forest_sum(sub, CalculationType::Cost)
    &&& bottleneck == forest_bottleneck(sub, CalculationType::Cost)
    &&& nodes.len() >= 1 ==> is_spanning_tree(ends_of(t.edges@), nodes.len())
}

/// Every edge of `es` is an edge of `es2`.
pub open spec fn edges_within(es: Seq<Edge>, es2: Seq<Edge>) -> bool {
    forall|i: int| 0 <= i < es.len() ==> es2.contains(#[trigger] es[i])
}

/// All weights are below zero: the weights are inverted.
pub open spec fn all_negative(es: Seq<Edge>) -> bool {
    forall|i: int| 0 <= i < es.len() ==> (#[trigger] es[i]).weight < 0
}

/// `t` solves the budgeted problem on the graph of the edges `es`: it is a spanning tree
/// made of edges of the graph, `cost` is the sum of its costs and within the budget, and,
/// where the weights are inverted, `bottleneck` is its largest weight.
pub open spec fn is_solution(
    es: Seq<Edge>,
    nodes: Seq<Node>,
    budget: int,
    t: MutableGraph,
    cost: int,
    bottleneck: int,
) -> bool {
    &&& t.wf()
    &&& t.nodes@ == nodes
    &&& edges_within(t.edges@, es)
    &&& nodes.len() >= 1 ==> is_spanning_tree(ends_of(t.edges@), nodes.len())
    &&& cost == cost_sum(t.edges@)
    &&& cost <= budget
    &&& all_negative(es) && t.edges@.len() > 0 ==> bottleneck == max_weight(t.edges@)
}

/// Uniting edge sets brings in no edge from elsewhere.
pub proof fn lemma_first_occurrences_within(es: Seq<Edge>)
    ensures
        edges_within(first_occurrences(es), es),
    decreases es.len(),
{
    if es.len() > 0 {
        lemma_first_occurrences_within(es.drop_last());
        let d = first_occurrences(es.drop_last());
        let f = first_occurrences(es);
        assert forall|i: int| 0 <= i < f.len() implies es.contains(#[trigger] f[i]) by {
            if i < d.len() {
                assert(es.drop_last().contains(d[i]));
                let j = choose|j: int| 0 <= j < es.drop_last().len() && es.drop_last()[j] == d[i];
                assert(es[j] == d[i]);
            } else {
                assert(es[es.len() - 1] == f[i]);
            }
        }
    }
}

/// Edges of a graph join nodes of the graph.
pub proof fn lemma_within_fits(a: Seq<Edge>, b: Seq<Edge>, n: nat)
    requires
        edges_within(a, b),
        forall|i: int| 0 <= i < b.len() ==> (#[trigger] b[i]).fits(n),
    ensures
        forall|i: int| 0 <= i < a.len() ==> (#[trigger] a[i]).fits(n),
{
    assert forall|i: int| 0 <= i < a.len() implies (#[trigger] a[i]).fits(n) by {
        assert(b.contains(a[i]));
    }
}

/// Two edge sets within a third are within it together.
pub proof fn lemma_concat_within(a: Seq<Edge>, b: Seq<Edge>, c: Seq<Edge>)
    requires
        edges_within(a, c),
        edges_within(b, c),
    ensures
        edges_within(a + b, c),
{
    assert forall|i: int| 0 <= i < (a + b).len() implies c.contains(#[trigger] (a + b)[i]) by {
        if i < a.len() {
            assert((a + b)[i] == a[i]);
        } else {
            assert((a + b)[i] == b[i - a.len()]);
        }
    }
}

/// Being an edge of is passed on.
pub proof fn lemma_edges_within_trans(a: Seq<Edge>, b: Seq<Edge>, c: Seq<Edge>)
    requires
        edges_within(a, b),
        edges_within(b, c),
    ensures
        edges_within(a, c),
{
    assert forall|i: int| 0 <= i < a.len() implies c.contains(#[trigger] a[i]) by {
        assert(b.contains(a[i]));
        let j = choose|j: int| 0 <= j < b.len() && b[j] == a[i];
        assert(c.contains(b[j]));
    }
}

/// Among inverted weights every weight is inverted.
pub proof fn lemma_all_negative_within(a: Seq<Edge>, b: Seq<Edge>)
    requires
        edges_within(a, b),
        all_negative(b),
    ensures
        all_negative(a),
{
    assert forall|i: int| 0 <= i < a.len() implies (#[trigger] a[i]).weight < 0 by {
        assert(b.contains(a[i]));
    }
}

/// A solution on some of the edges of a graph solves the problem on the graph.
pub proof fn lemma_solution_within(
    es: Seq<Edge>,
    es2: Seq<Edge>,
    nodes: Seq<Node>,
    budget: int,
    t: MutableGraph,
    cost: int,
    bottleneck: int,
)
    requires
        is_solution(es, nodes, budget, t, cost, bottleneck),
        edges_within(es, es2),
        all_negative(es2) ==> all_negative(es),
    ensures
        is_solution(es2, nodes, budget, t, cost, bottleneck),
{
    lemma_edges_within_trans(t.edges@, es, es2);
}

/// The tree of a probe that succeeded solves the problem.
pub proof fn lemma_probe_is_solution(
    es: Seq<Edge>,
    nodes: Seq<Node>,
    pivot: int,
    budget: int,
    t: MutableGraph,
    cost: int,
    bottleneck: int,
)
    requires
        feasible(es, nodes.len(), pivot, budget),
        is_probe_result(es, nodes, pivot, t, cost, bottleneck),
    ensures
        is_solution(es, nodes, budget, t, cost, bottleneck),
        edges_within(t.edges@, es.filter(weight_at_most(pivot))),
{
    let sub = es.filter(weight_at_most(pivot));
    let sorted = sorted_edges(sub, CalculationType::Cost);
    lemma_greedy_forest(sorted);
    lemma_sorted_same_edges(sub, CalculationType::Cost);
    assert(edges_within(t.edges@, sorted));
    assert(edges_within(sorted, sub));
    assert(edges_within(sub, es)) by {
        assert forall|i: int| 0 <= i < sub.len() implies es.contains(#[trigger] sub[i]) by {
            assert(sub.contains(sub[i]));
            es.lemma_filter_contains_rev(weight_at_most(pivot), sub[i]);
        }
    }
    lemma_edges_within_trans(t.edges@, sorted, sub);
    lemma_edges_within_trans(t.edges@, sub, es);
    if all_negative(es) && t.edges@.len() > 0 {
        lemma_all_negative_within(sorted, sub);
        lemma_all_negative_within(sub, es);
        assert(sorted.len() > 0);
        assert(sorted[0].weight < 0);
    }
}

/// A filter keeps edges that join nodes of the graph.
pub proof fn lemma_filter_fits(es: Seq<Edge>, pred: spec_fn(Edge) -> bool, n: nat)
    requires
        forall|i: int| 0 <= i < es.len() ==> (#[trigger] es[i]).fits(n),
    ensures
        forall|i: int| 0 <= i < es.filter(pred).len() ==> (#[trigger] es.filter(pred)[i]).fits(n),
        forall|i: int| 0 <= i < es.filter(pred).len() ==> es.contains(#[trigger] es.filter(pred)[i]),
{
    let f = es.filter(pred);
    assert forall|i: int| 0 <= i < f.len() implies (#[trigger] f[i]).fits(n) && es.contains(f[i]) by {
        assert(f.contains(f[i]));
        es.lemma_filter_contains_rev(pred, f[i]);
    }
}

/// What a probe at a pivot found.
pub enum PivotResult {
    /// A spanning tree within the budget, its cost and its bottleneck.
    Feasible((MutableGraph, i128, i64)),
    Infeasible,
}

/// What a probe at a pivot found, with the forest of a probe that failed.
pub enum PivotChecked {
    /// A spanning tree within the budget, its cost and its bottleneck.
    Feasible((MutableGraph, i128, i64)),
    /// The cheapest forest, which does not span or costs too much.
    Infeasible(MutableGraph),
}

/// The keys that the sets of this module hold: whole numbers, and tuples of whole
/// numbers. The hash and the equality of such a key go by its numbers alone.
trait PlainKey: std::hash::Hash + Eq {

}

impl PlainKey for i64 {

}

impl PlainKey for (usize, usize, i64, i64, i64) {

}

/// `HashSet::insert` on a set with the Fx hasher, which hashes equal keys alike in
/// every process. Trusted: the key is in the set afterwards, nothing else has changed,
/// and the result tells whether the key is new.
#[verifier::external_body]
fn insert_key<K: PlainKey>(set: &mut FxHashSet<K>, k: K) -> (fresh: bool)
    ensures
        final(set)@ == old(set)@.insert(k),
        fresh == !old(set)@.contains(k),
{
    set.insert(k)
}

/// `HashSet::into_iter`, collected. Trusted: each element of the set comes out once, in
/// an order that is not told.
#[verifier::external_body]
fn weights_of_set(set: FxHashSet<i64>) -> (r: Vec<i64>)
    ensures
        r@.no_duplicates(),
        r@.to_set() == set@,
{
    set.into_iter().collect()
}

/// `sort` of the standard library on integers. Trusted: afterwards the same numbers are
/// there, in ascending order.
#[verifier::external_body]
fn sort_weights(weights: &mut Vec<i64>)
    ensures
        final(weights)@.to_multiset() == old(weights)@.to_multiset(),
        forall|i: int, j: int|
            0 <= i < j < final(weights)@.len() ==> final(weights)@[i] <= final(weights)@[j],
{
    weights.sort();
}

/// Each number is below the next.
pub open spec fn ascending(ws: Seq<i64>) -> bool {
    forall|i: int, j: int| 0 <= i < j < ws.len() ==> ws[i] < ws[j]
}

pub struct Util();

impl Util {
    /// The larger of `bottleneck` and the weight of the edge where weights are inverted,
    /// the smaller of the two where they are not.
    pub fn update_bottleneck(bottleneck: i64, edge: &Edge, inverse: bool) -> (r: i64)
        ensures
            r == updated_bottleneck(bottleneck as int, edge.weight as int, inverse),
    {
        let mut bottleneck = bottleneck;
        if inverse {
            if edge.get_weight() > bottleneck {
                bottleneck = edge.get_weight();
            }
        } else if edge.get_weight() < bottleneck {
            bottleneck = edge.get_weight();
        }
        bottleneck
    }

    /// The graph on the same nodes with each edge followed by its upgraded copy: the
    /// edge at its own weight and at no cost, and the edge at its upgraded weight and at
    /// its cost.
    pub fn duplicate_edges(graph: &MutableGraph) -> (r: MutableGraph)
        ensures
            r.nodes@ == graph.nodes@,
            r.edges@ == duplicated(graph.edges@),
    {
        let mut edges: Vec<Edge> = Vec::new();
        let mut i: usize = 0;
        while i < graph.edges.len()
            invariant
                i <= graph.edges@.len(),
                edges@.len() == 2 * i,
                forall|k: int| 0 <= k < 2 * i ==> #[trigger] edges@[k] == duplicated(graph.edges@)[k],
            decreases graph.edges@.len() - i,
        {
            let edge = graph.edges[i];
            let (u, v) = edge.endpoints();
            edges.push(
                Edge::new(u, v).weight(edge.get_weight()).cost(0).upgraded(false).or_weight(
                    edge.get_weight(),
                ),
            );
            edges.push(
                Edge::new(u, v).weight(edge.get_upgraded_weight()).cost(edge.get_cost()).upgraded(
                    true,
                ).or_weight(edge.get_weight()),
            );
            i = i + 1;
        }
        proof {
            assert(edges@ =~= duplicated(graph.edges@));
        }
        MutableGraph::new(graph.nodes_copy(), edges)
    }

    /// The edges of `edges1`, then of `edges2`, without those that repeat the ends, both
    /// weights and the cost of an edge before them.
    pub fn union_edges(edges1: &Vec<Edge>, edges2: &Vec<Edge>) -> (r: Vec<Edge>)
        ensures
            r@ == first_occurrences(edges1@ + edges2@),
    {
        let mut seen: FxHashSet<(usize, usize, i64, i64, i64)> = FxHashSet::default();
        let mut out: Vec<Edge> = Vec::new();
        let ghost all = edges1@ + edges2@;
        let mut i: usize = 0;
        proof {
            assert(all.take(0) =~= Seq::<Edge>::empty());
            assert(seen@ =~= identities(all.take(0)));
        }
        while i < edges1.len()
            invariant
                i <= edges1@.len(),
                all == edges1@ + edges2@,
                seen@ == identities(all.take(i as int)),
                out@ == first_occurrences(all.take(i as int)),
            decreases edges1@.len() - i,
        {
            let e = edges1[i];
            let k = (e.either, e.other, e.weight, e.upgraded_weight, e.cost);
            proof {
                assert(all[i as int] == e);
                Self::lemma_take_next(all, i as int);
            }
            if insert_key(&mut seen, k) {
                out.push(e);
            }
            i = i + 1;
        }
        let mut j: usize = 0;
        while j < edges2.len()
            invariant
                j <= edges2@.len(),
                i == edges1@.len(),
                all == edges1@ + edges2@,
                seen@ == identities(all.take(i + j)),
                out@ == first_occurrences(all.take(i + j)),
            decreases edges2@.len() - j,
        {
            let e = edges2[j];
            let k = (e.either, e.other, e.weight, e.upgraded_weight, e.cost);
            proof {
                assert(all[i + j] == e);
                Self::lemma_take_next(all, i + j);
            }
            if insert_key(&mut seen, k) {
                out.push(e);
            }
            j = j + 1;
        }
        proof {
            assert(all.take(i + j) =~= all);
        }
        out
    }

    /// The identities and the first occurrences of one more edge.
    proof fn lemma_take_next(all: Seq<Edge>, i: int)
        requires
            0 <= i < all.len(),
        ensures
            identities(all.take(i + 1)) == identities(all.take(i)).insert(identity(all[i])),
            first_occurrences(all.take(i + 1)) == if identities(all.take(i)).contains(
                identity(all[i]),
            ) {
                first_occurrences(all.take(i))
            } else {
                first_occurrences(all.take(i)).push(all[i])
            },
    {
        let prev = all.take(i);
        let next = all.take(i + 1);
        assert(next.drop_last() =~= prev);
        assert(next.last() == all[i]);
        assert forall|k: (usize, usize, i64, i64, i64)|
            identities(next).contains(k) <==> identities(prev).insert(identity(all[i])).contains(
                k,
            ) by {
            if identities(next).contains(k) {
                let j = choose|j: int| 0 <= j < next.len() && identity(#[trigger] next[j]) == k;
                if j < i {
                    assert(identity(prev[j]) == k);
                }
            }
            if identities(prev).contains(k) {
                let j = choose|j: int| 0 <= j < prev.len() && identity(#[trigger] prev[j]) == k;
                assert(identity(next[j]) == k);
            }
            if k == identity(all[i]) {
                assert(identity(next[i]) == k);
            }
        }
        assert(identities(next) =~= identities(prev).insert(identity(all[i])));
    }

    /// The distinct weights `threshold` at least, each once, in no particular order.
    pub fn unique_weight_list_above_or_eq(edges: &Vec<Edge>, threshold: i64) -> (r: Vec<i64>)
        ensures
            r@.no_duplicates(),
            r@.to_set() == weights_from(edges@, threshold as int),
    {
        let mut weights: FxHashSet<i64> = FxHashSet::default();
        let mut i: usize = 0;
        while i < edges.len()
            invariant
                i <= edges@.len(),
                weights@ == weights_from(edges@.take(i as int), threshold as int),
            decreases edges@.len() - i,
        {
            let w = edges[i].get_weight();
            let ghost before = weights@;
            if w >= threshold {
                insert_key(&mut weights, w);
            }
            proof {
                let prev = edges@.take(i as int);
                let next = edges@.take(i + 1);
                assert(next =~= prev.push(edges@[i as int]));
                assert forall|x: i64|
                    weights@.contains(x) <==> weights_from(next, threshold as int).contains(x) by {
                    if weights_from(next, threshold as int).contains(x) {
                        let j = choose|j: int| 0 <= j < next.len() && (#[trigger] next[j]).weight == x;
                        if j < i {
                            assert(prev[j].weight == x);
                        }
                    }
                    if before.contains(x) {
                        let j = choose|j: int| 0 <= j < prev.len() && (#[trigger] prev[j]).weight == x;
                        assert(next[j].weight == x);
                    }
                    if x == w {
                        assert(next[i as int].weight == w);
                    }
                }
                assert(weights@ =~= weights_from(next, threshold as int));
            }
            i = i + 1;
        }
        proof {
            assert(edges@.take(i as int) =~= edges@);
        }
        weights_of_set(weights)
    }

    /// The numbers of `weights` above `lower_bound` and not above `upper_bound`, in their
    /// order.
    pub fn relevant_slice(weights: &Vec<i64>, lower_bound: i64, upper_bound: i64) -> (r: Vec<i64>)
        ensures
            r@ == weights@.filter(is_between(lower_bound as int, upper_bound as int)),
    {
        let mut out: Vec<i64> = Vec::new();
        let mut i: usize = 0;
        while i < weights.len()
            invariant
                i <= weights@.len(),
                out@ == weights@.take(i as int).filter(
                    is_between(lower_bound as int, upper_bound as int),
                ),
            decreases weights@.len() - i,
        {
            let x = weights[i];
            proof {
                assert(weights@.take(i + 1) =~= weights@.take(i as int).push(x));
                weights@.take(i as int).lemma_filter_push(
                    x,
                    is_between(lower_bound as int, upper_bound as int),
                );
            }
            if x > lower_bound && x <= upper_bound {
                out.push(x);
            }
            i = i + 1;
        }
        proof {
            assert(weights@.take(i as int) =~= weights@);
        }
        out
    }

    /// Puts distinct numbers in ascending order.
    pub fn sort_unique(weights: &mut Vec<i64>)
        requires
            old(weights)@.no_duplicates(),
        ensures
            ascending(final(weights)@),
            final(weights)@.to_set() == old(weights)@.to_set(),
            final(weights)@.len() == old(weights)@.len(),
    {
        let ghost before = weights@;
        sort_weights(weights);
        proof {
            broadcast use vstd::seq_lib::group_to_multiset_ensures;

            let after = weights@;
            before.lemma_multiset_has_no_duplicates();
            after.lemma_multiset_has_no_duplicates_conv();
            assert(after.to_multiset().len() == before.to_multiset().len());
            assert forall|x: i64| after.to_set().contains(x) <==> before.to_set().contains(x) by {
                assert(after.contains(x) <==> after.to_multiset().count(x) > 0);
                assert(before.contains(x) <==> before.to_multiset().count(x) > 0);
            }
            assert(after.to_set() =~= before.to_set());
        }
    }

    /// Probes a pivot: whether the edges that weigh `pivot_weight` at most hold a
    /// spanning tree that costs `budget` at most. Where they do, the cheapest one is
    /// handed back with its cost and its bottleneck.
    pub fn check_pivot(graph: &MutableGraph, pivot_weight: i64, budget: i64) -> (r: PivotResult)
        requires
            graph.wf(),
        ensures
            match r {
                PivotResult::Feasible((t, cost, bottleneck)) => {
                    &&& feasible(graph.edges@, graph.order(), pivot_weight as int, budget as int)
                    &&& is_probe_result(
                        graph.edges@,
                        graph.nodes@,
                        pivot_weight as int,
                        t,
                        cost as int,
                        bottleneck as int,
                    )
                },
                PivotResult::Infeasible => !feasible(
                    graph.edges@,
                    graph.order(),
                    pivot_weight as int,
                    budget as int,
                ),
            },
    {
        let mut graph_below_pivot = graph.smaller_or_eq_than(pivot_weight);
        proof {
            lemma_filter_fits(graph.edges@, weight_at_most(pivot_weight as int), graph.order());
        }
        let (op_mst, cost, bottleneck) = graph_below_pivot.mst(CalculationType::Cost);
        match op_mst {
            Some(st) => {
                if cost <= budget as i128 {
                    PivotResult::Feasible((st, cost, bottleneck))
                } else {
                    PivotResult::Infeasible
                }
            },
            None => PivotResult::Infeasible,
        }
    }

    /// The distinct weights above `lower_bound` and not above `upper_bound`, each once,
    /// in no particular order.
    pub fn unique_weight_list(edges: &Vec<Edge>, lower_bound: i64, upper_bound: i64) -> (r: Vec<i64>)
        ensures
            r@.no_duplicates(),
            r@.to_set() == weights_between(edges@, lower_bound as int, upper_bound as int),
    {
        let mut weights: FxHashSet<i64> = FxHashSet::default();
        let mut i: usize = 0;
        while i < edges.len()
            invariant
                i <= edges@.len(),
                weights@ == weights_between(
                    edges@.take(i as int),
                    lower_bound as int,
                    upper_bound as int,
                ),
            decreases edges@.len() - i,
        {
            let w = edges[i].get_weight();
            let ghost before = weights@;
            if w > lower_bound && w <= upper_bound {
                insert_key(&mut weights, w);
            }
            proof {
                let prev = edges@.take(i as int);
                let next = edges@.take(i + 1);
                assert(next =~= prev.push(edges@[i as int]));
                assert forall|x: i64|
                    weights@.contains(x) <==> weights_between(
                        next,
                        lower_bound as int,
                        upper_bound as int,
                    ).contains(x) by {
                    if weights_between(next, lower_bound as int, upper_bound as int).contains(x) {
                        let j = choose|j: int| 0 <= j < next.len() && (#[trigger] next[j]).weight == x;
                        if j < i {
                            assert(prev[j].weight == x);
                        }
                    }
                    if before.contains(x) {
                        let j = choose|j: int| 0 <= j < prev.len() && (#[trigger] prev[j]).weight == x;
                        assert(next[j].weight == x);
                    }
                    if x == w {
                        assert(next[i as int].weight == w);
                    }
                }
                assert(weights@ =~= weights_between(next, lower_bound as int, upper_bound as int));
            }
            i = i + 1;
        }
        proof {
            assert(edges@.take(i as int) =~= edges@);
        }
        weights_of_set(weights)
    }
}

} // verus!
