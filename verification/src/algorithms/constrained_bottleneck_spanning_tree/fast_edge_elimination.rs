use crate::algorithms::constrained_bottleneck_spanning_tree::berman::candidates;
use crate::algorithms::constrained_bottleneck_spanning_tree::feasibility::{
    is_answer, is_best_answer, is_cheapest_at_first, is_cheapest_at_least, is_inverted,
    lemma_candidates_cover, lemma_cheapest_first_is_least, lemma_closed_in_is_best,
    lemma_infeasible_below, lemma_light_part, lemma_light_part_keeps_cheapest,
    lemma_probe_answer_is_answer, lemma_replacement_keeps_cheapest, lemma_same_cheapest_cost,
    lemma_same_cheapest_trans, replaced, same_cheapest_at,
};
use crate::algorithms::min_sum_spanning_tree::kruskal::{
    forest_bottleneck, forest_of, forest_sum, lemma_greedy_forest, lemma_sorted_same_edges,
    sorted_edges, CalculationType, ConnectionType,
};
use crate::algorithms::util::{
    all_negative, ascending, edges_within, feasible, is_solution, is_trivial, is_trivial_answer,
    lemma_all_negative_within, lemma_concat_within, lemma_edges_within_trans, lemma_filter_fits,
    lemma_first_occurrences_within, lemma_probe_is_solution, lemma_solution_within,
    lemma_within_fits, PivotChecked, Util,
};
use crate::datastructures::garbage::Garbage;
use crate::datastructures::graph::connectivity::{is_spanning_tree, spans};
use crate::datastructures::graph::edge::{ends_of, NEG_INFINITY};
use crate::datastructures::graph::mutable_graph::{weight_above, weight_at_most, MutableGraph};
use vstd::prelude::*;

verus! {

/// Bisection over the distinct weights without bounds found beforehand. Every probe
/// shrinks the graph that the next probe works on: a probe that finds a tree leaves the
/// edges that it looked at, one that finds none leaves its cheapest forest and the edges
/// above the pivot.
pub struct FastEdgeElimination();

impl FastEdgeElimination {
    /// A spanning tree within the budget, with its cost and bottleneck, or no solution
    /// with cost and bottleneck 0; and the graphs that the search is done with.
    pub fn run(graph: MutableGraph, budget: i64) -> (r: (Option<MutableGraph>, i128, i64, Garbage))
        requires
            graph.wf(),
        ensures
            is_trivial(graph) ==> is_trivial_answer(graph, (r.0, r.1, r.2)),
            !is_trivial(graph) ==> is_answer(graph.edges@, graph.nodes@, budget as int, (r.0, r.1, r.2)),
            !is_trivial(graph) ==> is_cheapest_at_least(
                graph.edges@,
                graph.nodes@,
                candidates(graph.edges@),
                budget as int,
                (r.0, r.1, r.2),
            ),
            !is_trivial(graph) && is_inverted(graph.edges@) ==> is_best_answer(
                graph.edges@,
                graph.nodes@,
                budget as int,
                (r.0, r.1, r.2),
            ),
    {
        if graph.edges.len() == 0 && graph.nodes.len() <= 1 {
            return (Some(MutableGraph::new(graph.nodes_copy(), Vec::new())), 0, 0, Garbage::new());
        }
        let ghost es = graph.edges@;
        let ghost nodes = graph.nodes@;
        let ghost n = graph.order();
        proof {
            if es.len() > 0 {
                assert(es[0].fits(n));
            }
        }
        let mut unique_weights = Util::unique_weight_list(graph.edges(), NEG_INFINITY, 0);
        Util::sort_unique(&mut unique_weights);
        let r = Self::bisection_elimination_search(graph, &unique_weights, budget);
        proof {
            let answer = (r.0, r.1, r.2);
            let ws = unique_weights@;
            lemma_cheapest_first_is_least(es, nodes, ws, budget as int, answer);
            lemma_probe_answer_is_answer(es, nodes, budget as int, answer);
            if is_inverted(es) {
                lemma_candidates_cover(es, n, budget as int, candidates(es));
                lemma_closed_in_is_best(es, nodes, candidates(es), budget as int, answer);
            }
        }
        r
    }

    /// Bisection over the pivots on a graph that shrinks with every probe.
    pub fn bisection_elimination_search(
        graph: MutableGraph,
        unique_weights: &Vec<i64>,
        budget: i64,
    ) -> (r: (Option<MutableGraph>, i128, i64, Garbage))
        requires
            graph.wf(),
        ensures
            match r.0 {
                Some(t) => is_solution(
                    graph.edges@,
                    graph.nodes@,
                    budget as int,
                    t,
                    r.1 as int,
                    r.2 as int,
                ),
                None => r.1 == 0 && r.2 == 0,
            },
            ascending(unique_weights@) && graph.order() >= 1 ==> is_cheapest_at_first(
                graph.edges@,
                graph.nodes@,
                unique_weights@,
                budget as int,
                (r.0, r.1, r.2),
            ),
            r.3.trash@.len() <= unique_weights@.len(),
    {
        let ghost exact = ascending(unique_weights@) && graph.order() >= 1;
        let ghost start = graph.edges@;
        let ghost nodes = graph.nodes@;
        let mut graph = graph;
        let mut max: usize = unique_weights.len();
        let mut min: usize = 0;
        let mut final_st: Option<MutableGraph> = None;
        let mut cost: i128 = 0;
        let mut bottleneck: i64 = 0;
        let mut bin = Garbage::new();
        while min < max
            invariant
                min <= max <= unique_weights@.len(),
                graph.wf(),
                graph.nodes@ == nodes,
                edges_within(graph.edges@, start),
                bin.trash@.len() + (max - min) <= unique_weights@.len(),
                match final_st {
                    Some(t) => is_solution(start, nodes, budget as int, t, cost as int, bottleneck as int),
                    None => cost == 0 && bottleneck == 0,
                },
                exact == (ascending(unique_weights@) && nodes.len() >= 1),
                forall|i: int| 0 <= i < start.len() ==> (#[trigger] start[i]).fits(nodes.len()),
                exact ==> forall|j: int|
                    min <= j < max ==> same_cheapest_at(
                        graph.edges@,
                        start,
                        nodes.len(),
                        #[trigger] unique_weights@[j] as int,
                    ),
                exact ==> forall|j: int|
                    0 <= j < min ==> !feasible(
                        start,
                        nodes.len(),
                        #[trigger] unique_weights@[j] as int,
                        budget as int,
                    ),
                exact ==> match final_st {
                    Some(t) => {
                        &&& max < unique_weights@.len()
                        &&& feasible(
                            start,
                            nodes.len(),
                            unique_weights@[max as int] as int,
                            budget as int,
                        )
                        &&& forall|i: int|
                            0 <= i < t.edges@.len() ==> (#[trigger] t.edges@[i]).weight
                                <= unique_weights@[max as int]
                        &&& cost == forest_sum(
                            start.filter(weight_at_most(unique_weights@[max as int] as int)),
                            CalculationType::Cost,
                        )
                    },
                    None => max == unique_weights@.len(),
                },
            decreases max - min,
        {
            let pivot = min + (max - 1 - min) / 2;
            let ghost current = graph.edges@;
            let mut graph_w = graph.smaller_or_eq_than(unique_weights[pivot]);
            proof {
                lemma_filter_fits(current, weight_at_most(unique_weights@[pivot as int] as int), nodes.len());
                lemma_sorted_same_edges(graph_w.edges@, CalculationType::Cost);
                if all_negative(start) {
                    lemma_all_negative_within(current, start);
                }
            }
            let ghost sub = graph_w.edges@;
            match Self::check_pivot_bisection(&mut graph_w, budget) {
                PivotChecked::Feasible(st) => {
                    proof {
                        lemma_probe_is_solution(
                            current,
                            nodes,
                            unique_weights@[pivot as int] as int,
                            budget as int,
                            st.0,
                            st.1 as int,
                            st.2 as int,
                        );
                        lemma_solution_within(
                            current,
                            start,
                            nodes,
                            budget as int,
                            st.0,
                            st.1 as int,
                            st.2 as int,
                        );
                        assert(edges_within(graph_w.edges@, sub));
                        assert(edges_within(sub, current));
                        lemma_edges_within_trans(graph_w.edges@, sub, current);
                        lemma_edges_within_trans(graph_w.edges@, current, start);
                        if exact {
                            let p = unique_weights@[pivot as int] as int;
                            lemma_light_part(current, p);
                            assert(same_cheapest_at(current, start, nodes.len(), p));
                            assert(feasible(current, nodes.len(), p, budget as int));
                            lemma_same_cheapest_cost(current, start, nodes.len(), p, budget as int);
                            assert forall|i: int| 0 <= i < st.0.edges@.len() implies (
                            #[trigger] st.0.edges@[i]).weight <= p by {
                                assert(sub.contains(st.0.edges@[i]));
                            }
                            assert forall|i: int|
                                0 <= i < current.len() && current[i].weight <= p implies graph_w.edges@.contains(
                                #[trigger] current[i],
                            ) by {
                                assert(sub.contains(current[i]));
                                let x = choose|x: int| 0 <= x < sub.len() && sub[x] == current[i];
                                assert(graph_w.edges@.contains(sub[x]));
                            }
                            assert forall|j: int| min <= j < pivot implies same_cheapest_at(
                                graph_w.edges@,
                                start,
                                nodes.len(),
                                #[trigger] unique_weights@[j] as int,
                            ) by {
                                assert(unique_weights@[j] < unique_weights@[pivot as int]);
                                lemma_light_part_keeps_cheapest(
                                    graph_w.edges@,
                                    current,
                                    nodes.len(),
                                    p,
                                    unique_weights@[j] as int,
                                );
                                lemma_same_cheapest_trans(
                                    graph_w.edges@,
                                    current,
                                    start,
                                    nodes.len(),
                                    unique_weights@[j] as int,
                                );
                            }
                        }
                    }
                    max = pivot;
                    final_st = Some(st.0);
                    cost = st.1;
                    bottleneck = st.2;
                    bin.add(graph);
                    graph = graph_w;
                },
                PivotChecked::Infeasible(st) => {
                    let disjoint_graph = graph.bigger_than(unique_weights[pivot]);
                    let union_edges = Util::union_edges(disjoint_graph.edges(), st.edges());
                    proof {
                        lemma_filter_fits(
                            current,
                            weight_above(unique_weights@[pivot as int] as int),
                            nodes.len(),
                        );
                        lemma_greedy_forest(sorted_edges(sub, CalculationType::Cost));
                        assert(edges_within(st.edges@, sorted_edges(sub, CalculationType::Cost)));
                        assert(edges_within(sorted_edges(sub, CalculationType::Cost), sub));
                        lemma_edges_within_trans(
                            st.edges@,
                            sorted_edges(sub, CalculationType::Cost),
                            sub,
                        );
                        lemma_edges_within_trans(st.edges@, sub, current);
                        assert(edges_within(disjoint_graph.edges@, current));
                        lemma_concat_within(disjoint_graph.edges@, st.edges@, current);
                        lemma_first_occurrences_within(disjoint_graph.edges@ + st.edges@);
                        lemma_edges_within_trans(
                            union_edges@,
                            disjoint_graph.edges@ + st.edges@,
                            current,
                        );
                        lemma_edges_within_trans(union_edges@, current, start);
                        lemma_within_fits(union_edges@, current, nodes.len());
                        if exact {
                            let p = unique_weights@[pivot as int] as int;
                            assert(same_cheapest_at(current, start, nodes.len(), p));
                            lemma_infeasible_below(
                                start,
                                nodes.len(),
                                unique_weights@,
                                pivot as int,
                                budget as int,
                            );
                            assert(union_edges@ == replaced(current, p));
                            assert forall|j: int| pivot < j < max implies same_cheapest_at(
                                union_edges@,
                                start,
                                nodes.len(),
                                #[trigger] unique_weights@[j] as int,
                            ) by {
                                assert(unique_weights@[pivot as int] < unique_weights@[j]);
                                lemma_replacement_keeps_cheapest(
                                    current,
                                    nodes.len(),
                                    p,
                                    unique_weights@[j] as int,
                                );
                                lemma_same_cheapest_trans(
                                    union_edges@,
                                    current,
                                    start,
                                    nodes.len(),
                                    unique_weights@[j] as int,
                                );
                            }
                        }
                    }
                    let nodes_copy = graph.nodes_copy();
                    bin.add(graph);
                    graph = MutableGraph::new(nodes_copy, union_edges);
                    min = pivot + 1;
                },
            }
        }
        (final_st, cost, bottleneck, bin)
    }

    /// Probes the graph as it is: the cheapest spanning forest, and whether it is a
    /// spanning tree within the budget. The graph's edges are left in scanning order.
    fn check_pivot_bisection(graph: &mut MutableGraph, budget: i64) -> (r: PivotChecked)
        requires
            old(graph).wf(),
        ensures
            final(graph).wf(),
            final(graph).nodes == old(graph).nodes,
            final(graph).edges@ == sorted_edges(old(graph).edges@, CalculationType::Cost),
            match r {
                PivotChecked::Feasible((t, cost, bottleneck)) => {
                    &&& spans(ends_of(old(graph).edges@), old(graph).order())
                    &&& cost <= budget
                    &&& t.wf()
                    &&& t.nodes@ == old(graph).nodes@
                    &&& t.edges@ == forest_of(old(graph).edges@, CalculationType::Cost)
                    &&& cost == forest_sum(old(graph).edges@, CalculationType::Cost)
                    &&& bottleneck == forest_bottleneck(old(graph).edges@, CalculationType::Cost)
                    &&& old(graph).order() >= 1 ==> is_spanning_tree(
                        ends_of(t.edges@),
                        old(graph).order(),
                    )
                },
                PivotChecked::Infeasible(t) => {
                    &&& !(spans(ends_of(old(graph).edges@), old(graph).order()) && forest_sum(
                        old(graph).edges@,
                        CalculationType::Cost,
                    ) <= budget)
                    &&& t.wf()
                    &&& t.nodes@ == old(graph).nodes@
                    &&& t.edges@ == forest_of(old(graph).edges@, CalculationType::Cost)
                },
            },
    {
        let (connection_type, st, cost, bottleneck) = graph.mst_disconnected(CalculationType::Cost);
        match connection_type {
            ConnectionType::Connected => {
                if cost <= budget as i128 {
                    PivotChecked::Feasible((st, cost, bottleneck))
                } else {
                    PivotChecked::Infeasible(st)
                }
            },
            ConnectionType::Disconnected => PivotChecked::Infeasible(st),
        }
    }
}

} // verus!
