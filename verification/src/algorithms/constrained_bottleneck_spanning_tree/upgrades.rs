use crate::algorithms::constrained_bottleneck_spanning_tree::feasibility::{
    is_best_answer, is_feasible_tree, lemma_zero_budget,
};
use crate::algorithms::min_bottleneck_spanning_tree::camerini::is_mbst_result;
use crate::algorithms::min_sum_spanning_tree::kruskal::{
    forest_of, lemma_ends_contained, lemma_greedy_forest, lemma_sorted_keeps_graph,
    lemma_sorted_same_edges, sorted_edges, CalculationType, Kruskal,
};
use crate::algorithms::util::{
    all_negative, duplicated, edges_within, lemma_edges_within_trans, lemma_filter_fits,
    primary_copy,
};
use crate::datastructures::graph::connectivity::{
    lemma_contained_spans, lemma_same_reach_spans, lemma_tree_size, spans,
};
use crate::datastructures::graph::edge::{cost_sum, ends_of, max_weight, Edge};
use crate::datastructures::graph::mutable_graph::MutableGraph;
use crate::datastructures::graph::node::Node;
use vstd::prelude::*;

verus! {

/// Whether an edge is free of cost.
pub open spec fn is_free() -> spec_fn(Edge) -> bool {
    |e: Edge| e.cost == 0
}

/// Edges without cost cost nothing together.
pub proof fn lemma_free_edges_cost_nothing(t: Seq<Edge>)
    requires
        forall|i: int| 0 <= i < t.len() ==> (#[trigger] t[i]).cost == 0,
    ensures
        cost_sum(t) == 0,
    decreases t.len(),
{
    if t.len() > 0 {
        assert forall|i: int| 0 <= i < t.drop_last().len() implies (#[trigger] t.drop_last()[i]).cost
            == 0 by {
            assert(t.drop_last()[i] == t[i]);
        }
        lemma_free_edges_cost_nothing(t.drop_last());
        assert(t[t.len() - 1].cost == 0);
    }
}

/// With a budget of zero there is a solution exactly where the edges without cost span
/// the nodes, and the solution is made of such edges: of edges that are not upgraded,
/// where every upgrade costs.
pub proof fn lemma_zero_budget_answer(
    es: Seq<Edge>,
    nodes: Seq<Node>,
    r: (Option<MutableGraph>, i128, i64),
)
    requires
        forall|i: int| 0 <= i < es.len() ==> (#[trigger] es[i]).fits(nodes.len()),
        nodes.len() >= 1,
        is_best_answer(es, nodes, 0, r),
    ensures
        r.0 is Some <==> spans(ends_of(es.filter(is_free())), nodes.len()),
        r.0 matches Some(t) ==> forall|i: int| 0 <= i < t.edges@.len() ==> (#[trigger] t.edges@[i]).cost == 0,
{
    let n = nodes.len();
    let free = es.filter(is_free());
    assert(edges_within(free, es)) by {
        assert forall|i: int| 0 <= i < free.len() implies es.contains(#[trigger] free[i]) by {
            assert(free.contains(free[i]));
            es.lemma_filter_contains_rev(is_free(), free[i]);
        }
    }
    if r.0 is Some {
        let t = r.0->0.edges@;
        assert(is_feasible_tree(es, n, 0, t));
        lemma_zero_budget(es, n, t);
        assert(edges_within(t, free)) by {
            assert forall|i: int| 0 <= i < t.len() implies free.contains(#[trigger] t[i]) by {
                assert(es.contains(t[i]));
                let j = choose|j: int| 0 <= j < es.len() && es[j] == t[i];
                es.lemma_filter_contains(is_free(), j);
            }
        }
        lemma_ends_contained(t, free);
        lemma_contained_spans(ends_of(t), ends_of(free), n);
    }
    if spans(ends_of(free), n) {
        let c = CalculationType::Cost;
        let sorted = sorted_edges(free, c);
        let forest = forest_of(free, c);
        lemma_filter_fits(es, is_free(), n);
        lemma_sorted_same_edges(free, c);
        lemma_sorted_keeps_graph(free, c, n);
        lemma_greedy_forest(sorted);
        Kruskal::lemma_forest_fits(sorted, n);
        lemma_same_reach_spans(ends_of(forest), ends_of(sorted), n);
        lemma_tree_size(ends_of(forest), n);
        lemma_edges_within_trans(forest, sorted, free);
        lemma_edges_within_trans(forest, free, es);
        assert forall|i: int| 0 <= i < forest.len() implies (#[trigger] forest[i]).cost == 0 by {
            assert(free.contains(forest[i]));
            let j = choose|j: int| 0 <= j < free.len() && free[j] == forest[i];
            es.lemma_filter_pred(is_free(), j);
        }
        lemma_free_edges_cost_nothing(forest);
        assert(is_feasible_tree(es, n, 0, forest));
    }
}

/// Edges that agree one by one in their ends and weights have the same ends and the
/// same largest weight.
pub proof fn lemma_copies_measure_alike(a: Seq<Edge>, b: Seq<Edge>)
    requires
        a.len() == b.len(),
        forall|i: int| 0 <= i < a.len() ==> (#[trigger] a[i]).ends() == b[i].ends() && a[i].weight == b[i].weight,
    ensures
        ends_of(a) == ends_of(b),
        max_weight(a) == max_weight(b),
    decreases a.len(),
{
    assert(ends_of(a) =~= ends_of(b)) by {
        assert forall|i: int| 0 <= i < a.len() implies ends_of(a)[i] == ends_of(b)[i] by {
            assert(a[i].ends() == b[i].ends());
        }
    }
    if a.len() > 0 {
        assert forall|i: int| 0 <= i < a.drop_last().len() implies (#[trigger] a.drop_last()[i]).ends()
            == b.drop_last()[i].ends() && a.drop_last()[i].weight == b.drop_last()[i].weight by {
            assert(a[i].ends() == b[i].ends() && a[i].weight == b[i].weight);
        }
        lemma_copies_measure_alike(a.drop_last(), b.drop_last());
        assert(a[a.len() - 1].weight == b[a.len() - 1].weight);
    }
}

/// Upgrades that cannot be afforded change nothing. On a connected graph of two nodes
/// or more with weights below zero, in which every upgrade costs, a search with a budget
/// of zero in the graph with both copies of every edge finds the bottleneck of the
/// spanning tree of least bottleneck of the graph itself.
pub proof fn lemma_unaffordable_upgrades(
    graph: MutableGraph,
    least: (Option<MutableGraph>, i64),
    r: (Option<MutableGraph>, i128, i64),
)
    requires
        graph.wf(),
        graph.order() >= 2,
        spans(ends_of(graph.edges@), graph.order()),
        forall|i: int|
            0 <= i < graph.edges@.len() ==> (#[trigger] graph.edges@[i]).weight < 0
                && graph.edges@[i].upgraded_weight < 0 && graph.edges@[i].cost > 0,
        is_mbst_result(graph, least),
        is_best_answer(duplicated(graph.edges@), graph.nodes@, 0, r),
    ensures
        r.0 is Some,
        r.2 == least.1,
{
    let es = graph.edges@;
    let n = graph.order();
    let both = duplicated(es);
    let m = least.0->0.edges@;
    // the tree of least bottleneck, copied edge by edge, is a free spanning tree of the
    // graph with both copies
    let copies = Seq::new(m.len(), |i: int| primary_copy(m[i]));
    lemma_copies_measure_alike(copies, m);
    assert(edges_within(copies, both)) by {
        assert forall|i: int| 0 <= i < copies.len() implies both.contains(#[trigger] copies[i]) by {
            assert(es.contains(m[i]));
            let j = choose|j: int| 0 <= j < es.len() && es[j] == m[i];
            assert(both[2 * j] == primary_copy(es[j]));
        }
    }
    lemma_free_edges_cost_nothing(copies);
    assert(is_feasible_tree(both, n, 0, copies));
    let t = r.0->0.edges@;
    assert(is_feasible_tree(both, n, 0, t));
    assert(max_weight(t) <= max_weight(copies));
    // the tree that was found is made of first copies, which stand for edges of the
    // graph
    assert forall|i: int| 0 <= i < both.len() implies (#[trigger] both[i]).fits(n) by {
        assert(es[i / 2].fits(n));
    }
    lemma_zero_budget(both, n, t);
    let firsts = Seq::new(
        t.len(),
        |i: int| choose|e: Edge| es.contains(e) && e.ends() == t[i].ends() && e.weight == t[i].weight,
    );
    assert forall|i: int| 0 <= i < t.len() implies es.contains(#[trigger] firsts[i]) && firsts[i].ends()
        == t[i].ends() && firsts[i].weight == t[i].weight by {
        assert(both.contains(t[i]));
        let j = choose|j: int| 0 <= j < both.len() && both[j] == t[i];
        assert(es[j / 2].cost > 0);
        assert(j % 2 == 0);
        assert(es.contains(es[j / 2]));
        assert(es[j / 2].ends() == t[i].ends() && es[j / 2].weight == t[i].weight);
    }
    lemma_copies_measure_alike(firsts, t);
    assert(edges_within(firsts, es));
    assert(max_weight(m) <= max_weight(firsts));
    // both bottlenecks are largest weights
    assert(all_negative(both)) by {
        assert forall|i: int| 0 <= i < both.len() implies (#[trigger] both[i]).weight < 0 by {
            assert(es[i / 2].weight < 0 && es[i / 2].upgraded_weight < 0);
        }
    }
    assert(m.len() > 0 && t.len() > 0);
    assert(es.contains(m[0]));
}

} // verus!
