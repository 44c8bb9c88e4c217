use crate::algorithms::constrained_bottleneck_spanning_tree::berman::candidates;
use crate::algorithms::constrained_bottleneck_spanning_tree::feasibility::{
    is_answer, is_best, is_best_answer, is_cheapest_at_first, is_cheapest_at_least,
    is_feasible_tree, is_infeasible, is_inverted, lemma_best_and_cheapest,
    lemma_bottleneck_is_a_weight, lemma_cheapest_first_is_least, lemma_closed_in_is_best,
    lemma_feasible_has_tree, lemma_infeasible_below, lemma_light_part, lemma_more_edges_allow_more,
    lemma_probe_answer_is_answer, lemma_probe_step, lemma_probe_step_cheapest,
    lemma_same_cheapest_cost, lemma_tree_costs_less, lemma_tree_makes_feasible, same_cheapest_at,
    same_feasibility,
};
use crate::algorithms::min_sum_spanning_tree::kruskal::{
    forest_bottleneck, forest_sum, lemma_sorted_same_edges, lemma_weight_forest_least_bottleneck,
    sorted_edges, CalculationType,
};
use crate::algorithms::util::{
    all_negative, ascending, edges_within, feasible, greatest, is_solution, is_trivial,
    is_trivial_answer, lemma_all_negative_within, lemma_edges_within_trans, lemma_filter_fits,
    lemma_probe_is_solution, lemma_solution_within, lemma_within_fits, weights_from, PivotResult,
    Util,
};
use crate::datastructures::garbage::Garbage;
use crate::datastructures::graph::connectivity::{is_spanning_tree, spans};
use crate::datastructures::graph::edge::{cost_sum, ends_of, max_weight, Edge, NEG_INFINITY};
use crate::datastructures::graph::mutable_graph::{weight_at_most, MutableGraph};
use vstd::prelude::*;

verus! {

/// Whether an edge stays when upgrades that cannot help are removed: an edge that is not
/// upgraded stays, and an upgraded one stays where the weight it had before is above the
/// bottleneck.
pub open spec fn upgrade_helps(bottleneck: int) -> spec_fn(Edge) -> bool {
    |e: Edge| !e.upgraded || e.or_weight > bottleneck
}

/// The edges that the search starts from: in the order of their weights, without the
/// upgrades that cannot help.
pub open spec fn search_edges(es: Seq<Edge>) -> Seq<Edge> {
    sorted_edges(es, CalculationType::Weight).filter(
        upgrade_helps(forest_bottleneck(es, CalculationType::Weight)),
    )
}

/// The edge at `i` has a twin that is free: an edge with the same ends that is not
/// upgraded, costs nothing and weighs what the edge weighed before its upgrade.
pub open spec fn has_free_twin(es: Seq<Edge>, i: int) -> bool {
    exists|j: int|
        0 <= j < es.len() && !(#[trigger] es[j]).upgraded && es[j].cost == 0 && es[j].ends()
            == es[i].ends() && es[j].weight == es[i].or_weight
}

/// Every upgraded edge has a free twin, as in a graph with both copies of every edge.
pub open spec fn upgrades_have_twins(es: Seq<Edge>) -> bool {
    forall|i: int| 0 <= i < es.len() && (#[trigger] es[i]).upgraded ==> has_free_twin(es, i)
}

/// Every upgraded edge that weighed `least` at most before its upgrade has a free twin.
pub open spec fn useless_upgrades_have_twins(es: Seq<Edge>, least: int) -> bool {
    forall|i: int|
        0 <= i < es.len() && (#[trigger] es[i]).upgraded && es[i].or_weight <= least ==> has_free_twin(
            es,
            i,
        )
}

/// In a graph with both copies of every edge, every upgraded edge has a free twin.
pub proof fn lemma_copies_are_twins(es: Seq<Edge>)
    ensures
        upgrades_have_twins(crate::algorithms::util::duplicated(es)),
{
    let both = crate::algorithms::util::duplicated(es);
    assert forall|i: int| 0 <= i < both.len() && (#[trigger] both[i]).upgraded implies has_free_twin(
        both,
        i,
    ) by {
        assert(i % 2 == 1);
        let j = i - 1;
        assert(both[j] == crate::algorithms::util::primary_copy(es[j / 2]));
        assert(j / 2 == i / 2);
        assert(!both[j].upgraded && both[j].cost == 0 && both[j].ends() == both[i].ends()
            && both[j].weight == both[i].or_weight);
    }
}

/// Edges that one by one cost no more and have the same ends have the same ends, and
/// cost no more together.
pub proof fn lemma_cheaper_copies(a: Seq<Edge>, b: Seq<Edge>)
    requires
        a.len() == b.len(),
        forall|i: int| 0 <= i < a.len() ==> (#[trigger] a[i]).ends() == b[i].ends() && a[i].cost <= b[i].cost,
    ensures
        ends_of(a) == ends_of(b),
        cost_sum(a) <= cost_sum(b),
    decreases a.len(),
{
    assert(ends_of(a) =~= ends_of(b)) by {
        assert forall|i: int| 0 <= i < a.len() implies ends_of(a)[i] == ends_of(b)[i] by {
            assert(a[i].ends() == b[i].ends());
        }
    }
    if a.len() > 0 {
        assert forall|i: int| 0 <= i < a.drop_last().len() implies (#[trigger] a.drop_last()[i]).ends()
            == b.drop_last()[i].ends() && a.drop_last()[i].cost <= b.drop_last()[i].cost by {
            assert(a[i].ends() == b[i].ends() && a[i].cost <= b[i].cost);
        }
        lemma_cheaper_copies(a.drop_last(), b.drop_last());
        assert(a[a.len() - 1].cost <= b[a.len() - 1].cost);
    }
}

/// Edges that all weigh a number at most have a largest weight of that number at most,
/// where the number is not below what stands for no weight.
pub proof fn lemma_max_weight_at_most(t: Seq<Edge>, v: int)
    requires
        forall|i: int| 0 <= i < t.len() ==> (#[trigger] t[i]).weight <= v,
        NEG_INFINITY <= v,
    ensures
        max_weight(t) <= v,
{
    crate::algorithms::bottleneck::lemma_max_weight_attained(t);
    if max_weight(t) != NEG_INFINITY {
        let i = choose|i: int| 0 <= i < t.len() && (#[trigger] t[i]).weight == max_weight(t);
    }
}

/// Upgrades that cannot help can go: where every upgraded edge has a free twin, a
/// spanning tree within the budget can do without the upgrades of edges that weighed
/// the least bottleneck at most, at no larger a bottleneck.
pub proof fn lemma_tree_without_useless_upgrades(
    es: Seq<Edge>,
    n: nat,
    budget: int,
    least: int,
    t: Seq<Edge>,
) -> (other: Seq<Edge>)
    requires
        forall|i: int| 0 <= i < es.len() ==> (#[trigger] es[i]).fits(n),
        useless_upgrades_have_twins(es, least),
        is_feasible_tree(es, n, budget, t),
        least <= max_weight(t),
    ensures
        is_feasible_tree(es, n, budget, other),
        forall|i: int| 0 <= i < other.len() ==> upgrade_helps(least)(#[trigger] other[i]),
        max_weight(other) <= max_weight(t),
{
    let other = Seq::new(
        t.len(),
        |i: int|
            if upgrade_helps(least)(t[i]) {
                t[i]
            } else {
                choose|e: Edge|
                    es.contains(e) && !e.upgraded && e.cost == 0 && e.ends() == t[i].ends() && e.weight
                        == t[i].or_weight
            },
    );
    crate::algorithms::util::lemma_within_fits(t, es, n);
    assert forall|i: int| 0 <= i < t.len() implies es.contains(#[trigger] other[i]) && other[i].ends()
        == t[i].ends() && other[i].cost <= t[i].cost && upgrade_helps(least)(other[i])
        && other[i].weight <= max_weight(t) by {
        crate::algorithms::bottleneck::lemma_max_weight_bounds(t, i);
        if !upgrade_helps(least)(t[i]) {
            assert(es.contains(t[i]));
            let x = choose|x: int| 0 <= x < es.len() && es[x] == t[i];
            assert(has_free_twin(es, x));
            let j = choose|j: int|
                0 <= j < es.len() && !(#[trigger] es[j]).upgraded && es[j].cost == 0 && es[j].ends()
                    == es[x].ends() && es[j].weight == es[x].or_weight;
            assert(es.contains(es[j]));
        }
    }
    lemma_cheaper_copies(other, t);
    crate::algorithms::bottleneck::lemma_max_weight_floor(t);
    lemma_max_weight_at_most(other, max_weight(t));
    other
}

/// On inverted weights the bottleneck of the lightest spanning tree is a bound: no
/// spanning tree of the graph has a largest weight below it.
pub proof fn lemma_lightest_bottleneck_bounds(es: Seq<Edge>, n: nat)
    requires
        forall|i: int| 0 <= i < es.len() ==> (#[trigger] es[i]).fits(n),
        n >= 2,
        all_negative(es),
    ensures
        forall|t: Seq<Edge>| #[trigger]
            edges_within(t, es) && is_spanning_tree(ends_of(t), n) ==> forest_bottleneck(
                es,
                CalculationType::Weight,
            ) <= max_weight(t),
{
    let c = CalculationType::Weight;
    let sorted = sorted_edges(es, c);
    let forest = crate::algorithms::min_sum_spanning_tree::kruskal::forest_of(es, c);
    lemma_sorted_same_edges(es, c);
    lemma_weight_forest_least_bottleneck(es, n);
    assert forall|t: Seq<Edge>| #[trigger]
        edges_within(t, es) && is_spanning_tree(ends_of(t), n) implies forest_bottleneck(es, c)
        <= max_weight(t) by {
        crate::algorithms::min_sum_spanning_tree::kruskal::lemma_ends_contained(t, es);
        crate::datastructures::graph::connectivity::lemma_contained_spans(ends_of(t), ends_of(es), n);
        crate::algorithms::min_sum_spanning_tree::kruskal::lemma_sorted_keeps_graph(es, c, n);
        crate::algorithms::min_sum_spanning_tree::kruskal::lemma_greedy_forest(sorted);
        crate::algorithms::min_sum_spanning_tree::kruskal::Kruskal::lemma_forest_fits(sorted, n);
        crate::datastructures::graph::connectivity::lemma_same_reach_spans(
            ends_of(forest),
            ends_of(sorted),
            n,
        );
        crate::datastructures::graph::connectivity::lemma_tree_size(ends_of(forest), n);
        lemma_edges_within_trans(forest, sorted, es);
        lemma_all_negative_within(forest, es);
        lemma_all_negative_within(sorted, es);
        assert(forest[0].weight < 0);
        assert(sorted[0].weight < 0);
        assert(forest_bottleneck(es, c) == max_weight(forest));
        assert(max_weight(forest) <= max_weight(t));
    }
}

/// Upgrades that cannot help change no cost: where those of them that are in the graph
/// have free twins, the edges without them have cheapest spanning trees of the cost of
/// those of the graph, at every pivot.
pub proof fn lemma_useless_upgrades_keep_cheapest(
    es: Seq<Edge>,
    part: Seq<Edge>,
    n: nat,
    least: int,
    q: int,
)
    requires
        forall|i: int| 0 <= i < es.len() ==> (#[trigger] es[i]).fits(n),
        n >= 1,
        NEG_INFINITY <= q,
        useless_upgrades_have_twins(es, least),
        forall|t: Seq<Edge>| #[trigger]
            edges_within(t, es) && is_spanning_tree(ends_of(t), n) ==> least <= max_weight(t),
        edges_within(part, es),
        forall|i: int|
            0 <= i < es.len() && upgrade_helps(least)(es[i]) ==> part.contains(#[trigger] es[i]),
    ensures
        same_cheapest_at(part, es, n, q),
{
    lemma_within_fits(part, es, n);
    assert forall|budget: int|
        #![trigger feasible(part, n, q, budget)]
        #![trigger feasible(es, n, q, budget)]
        feasible(part, n, q, budget) <==> feasible(es, n, q, budget) by {
        if feasible(part, n, q, budget) {
            lemma_more_edges_allow_more(part, es, n, q, budget);
        }
        if feasible(es, n, q, budget) {
            lemma_feasible_has_tree(es, n, q, budget);
            let t = crate::algorithms::min_sum_spanning_tree::kruskal::forest_of(
                es.filter(weight_at_most(q)),
                CalculationType::Cost,
            );
            lemma_light_part(es, q);
            lemma_edges_within_trans(t, es.filter(weight_at_most(q)), es);
            assert forall|i: int| 0 <= i < t.len() implies (#[trigger] t[i]).weight <= q by {
                assert(es.filter(weight_at_most(q)).contains(t[i]));
            }
            lemma_max_weight_at_most(t, q);
            let other = lemma_tree_without_useless_upgrades(es, n, budget, least, t);
            assert(edges_within(other, part)) by {
                assert forall|i: int| 0 <= i < other.len() implies part.contains(#[trigger] other[i]) by {
                    assert(es.contains(other[i]));
                    let x = choose|x: int| 0 <= x < es.len() && es[x] == other[i];
                    assert(upgrade_helps(least)(es[x]));
                }
            }
            lemma_tree_makes_feasible(part, n, budget, other, q);
        }
    }
}

/// The answer cannot be beaten among the edges that the search starts from: no
/// spanning tree of them within the budget has a smaller bottleneck, and no solution
/// means that they hold no spanning tree within the budget.
pub open spec fn is_best_search_answer(
    es: Seq<Edge>,
    n: nat,
    budget: int,
    r: (Option<MutableGraph>, i128, i64),
) -> bool {
    match r.0 {
        Some(t) => is_best(search_edges(es), n, budget, t.edges@),
        None => is_infeasible(search_edges(es), n, budget),
    }
}

/// A search with two probes in each round, which drops the edges above the bottleneck
/// of every tree that it finds.
pub struct EdgeEliminationOld();

impl EdgeEliminationOld {
    /// A spanning tree within the budget, with its cost and bottleneck, or no solution
    /// with cost and bottleneck 0. Edges that the search has dropped are gone from the
    /// graph afterwards. On inverted weights, where every upgraded edge has a free twin,
    /// no spanning tree within the budget has a smaller bottleneck than the answer; and
    /// where the whole graph costs more than the budget, the answer costs what the
    /// cheapest spanning tree of the edges up to its bottleneck costs. Where the whole
    /// graph is within the budget, the answer is the lightest spanning tree, whatever
    /// it costs.
    pub fn run(graph: &mut MutableGraph, budget: i64) -> (r: (
        Option<MutableGraph>,
        i128,
        i64,
        Garbage,
    ))
        requires
            old(graph).wf(),
        ensures
            final(graph).wf(),
            final(graph).nodes@ == old(graph).nodes@,
            edges_within(final(graph).edges@, old(graph).edges@),
            is_trivial(*old(graph)) ==> is_trivial_answer(*old(graph), (r.0, r.1, r.2)),
            !is_trivial(*old(graph)) ==> is_answer(
                old(graph).edges@,
                old(graph).nodes@,
                budget as int,
                (r.0, r.1, r.2),
            ),
            !is_trivial(*old(graph)) && spans(ends_of(old(graph).edges@), old(graph).order())
                && cost_sum(old(graph).edges@) <= budget ==> r.0 is Some,
            old(graph).order() >= 2 && all_negative(old(graph).edges@) && is_inverted(
                old(graph).edges@,
            ) ==> is_best_search_answer(old(graph).edges@, old(graph).order(), budget as int, (r.0, r.1, r.2)),
            old(graph).order() >= 2 && all_negative(old(graph).edges@) && is_inverted(
                old(graph).edges@,
            ) && upgrades_have_twins(old(graph).edges@) ==> is_best_answer(
                old(graph).edges@,
                old(graph).nodes@,
                budget as int,
                (r.0, r.1, r.2),
            ),
            old(graph).order() >= 2 && all_negative(old(graph).edges@) && is_inverted(
                old(graph).edges@,
            ) && upgrades_have_twins(old(graph).edges@) && cost_sum(old(graph).edges@) > budget
                ==> is_cheapest_at_least(
                old(graph).edges@,
                old(graph).nodes@,
                candidates(old(graph).edges@),
                budget as int,
                (r.0, r.1, r.2),
            ),
            r.3.trash@.len() == 0,
    {
        let ghost es = graph.edges@;
        let ghost n = graph.order();
        let ghost nodes = graph.nodes@;
        let r = Self::search(graph, budget);
        proof {
            let answer = (r.0, r.1, r.2);
            if !is_trivial(*old(graph)) {
                lemma_probe_answer_is_answer(es, nodes, budget as int, answer);
            }
            if n >= 2 && all_negative(es) && is_inverted(es) && upgrades_have_twins(es) {
                Self::lemma_search_answer_is_best(es, nodes, budget as int, answer);
            }
        }
        r
    }

    /// An answer that no spanning tree of the searched edges beats is beaten by no
    /// spanning tree of the graph, where every upgraded edge has a free twin.
    proof fn lemma_search_answer_is_best(
        es: Seq<Edge>,
        nodes: Seq<crate::datastructures::graph::node::Node>,
        budget: int,
        r: (Option<MutableGraph>, i128, i64),
    )
        requires
            forall|i: int| 0 <= i < es.len() ==> (#[trigger] es[i]).fits(nodes.len()),
            nodes.len() >= 2,
            all_negative(es),
            is_inverted(es),
            upgrades_have_twins(es),
            is_answer(es, nodes, budget, r),
            is_best_search_answer(es, nodes.len(), budget, r),
        ensures
            is_best_answer(es, nodes, budget, r),
    {
        let n = nodes.len();
        let c = CalculationType::Weight;
        let least = forest_bottleneck(es, c);
        let sorted = sorted_edges(es, c);
        let forest = crate::algorithms::min_sum_spanning_tree::kruskal::forest_of(es, c);
        let searched = search_edges(es);
        lemma_sorted_same_edges(es, c);
        lemma_lightest_bottleneck_bounds(es, n);
        assert forall|t: Seq<Edge>| #[trigger] is_feasible_tree(es, n, budget, t) implies exists|
            other: Seq<Edge>,
        | #[trigger]
            is_feasible_tree(searched, n, budget, other) && max_weight(other) <= max_weight(t) by {
            assert(least <= max_weight(t));
            let other = lemma_tree_without_useless_upgrades(es, n, budget, least, t);
            assert(edges_within(other, searched)) by {
                assert forall|i: int| 0 <= i < other.len() implies searched.contains(
                    #[trigger] other[i],
                ) by {
                    assert(es.contains(other[i]));
                    let x = choose|x: int| 0 <= x < es.len() && es[x] == other[i];
                    assert(sorted.contains(es[x]));
                    let y = choose|y: int| 0 <= y < sorted.len() && sorted[y] == other[i];
                    sorted.lemma_filter_contains(upgrade_helps(least), y);
                }
            }
            assert(is_feasible_tree(searched, n, budget, other));
        }
        if r.0 is Some {
            let found = r.0->0.edges@;
            assert forall|t: Seq<Edge>| #[trigger] is_feasible_tree(es, n, budget, t) implies max_weight(
                found,
            ) <= max_weight(t) by {
                let other = choose|other: Seq<Edge>| #[trigger]
                    is_feasible_tree(searched, n, budget, other) && max_weight(other) <= max_weight(t);
            }
        } else {
            assert forall|t: Seq<Edge>| !#[trigger] is_feasible_tree(es, n, budget, t) by {
                if is_feasible_tree(es, n, budget, t) {
                    let other = choose|other: Seq<Edge>| #[trigger]
                        is_feasible_tree(searched, n, budget, other) && max_weight(other) <= max_weight(
                            t,
                        );
                }
            }
        }
    }

    /// The search itself.
    fn search(graph: &mut MutableGraph, budget: i64) -> (r: (
        Option<MutableGraph>,
        i128,
        i64,
        Garbage,
    ))
        requires
            old(graph).wf(),
        ensures
            final(graph).wf(),
            final(graph).nodes@ == old(graph).nodes@,
            edges_within(final(graph).edges@, old(graph).edges@),
            is_trivial(*old(graph)) ==> is_trivial_answer(*old(graph), (r.0, r.1, r.2)),
            !is_trivial(*old(graph)) ==> match r.0 {
                Some(t) => is_solution(
                    old(graph).edges@,
                    old(graph).nodes@,
                    budget as int,
                    t,
                    r.1 as int,
                    r.2 as int,
                ),
                None => {
                    &&& r.1 == 0
                    &&& r.2 == 0
                    &&& !spans(ends_of(old(graph).edges@), old(graph).order()) || {
                        &&& final(graph).edges@ == search_edges(old(graph).edges@)
                        &&& forall|q: i64| #[trigger]
                            greatest(
                                weights_from(
                                    search_edges(old(graph).edges@),
                                    forest_bottleneck(old(graph).edges@, CalculationType::Weight),
                                ),
                                q,
                            ) ==> !feasible(
                                search_edges(old(graph).edges@),
                                old(graph).order(),
                                q as int,
                                budget as int,
                            )
                    }
                },
            },
            !is_trivial(*old(graph)) && spans(ends_of(old(graph).edges@), old(graph).order())
                && cost_sum(old(graph).edges@) <= budget ==> r.0 is Some,
            old(graph).order() >= 2 && all_negative(old(graph).edges@) && is_inverted(
                old(graph).edges@,
            ) ==> is_best_search_answer(old(graph).edges@, old(graph).order(), budget as int, (r.0, r.1, r.2)),
            old(graph).order() >= 2 && all_negative(old(graph).edges@) && is_inverted(
                old(graph).edges@,
            ) && upgrades_have_twins(old(graph).edges@) && cost_sum(old(graph).edges@) > budget
                ==> is_cheapest_at_least(
                old(graph).edges@,
                old(graph).nodes@,
                candidates(old(graph).edges@),
                budget as int,
                (r.0, r.1, r.2),
            ),
            r.3.trash@.len() == 0,
    {
        if graph.edges.len() == 0 && graph.nodes.len() <= 1 {
            return (Some(MutableGraph::new(graph.nodes_copy(), Vec::new())), 0, 0, Garbage::default());
        }
        let ghost n = graph.order();
        let ghost exact = n >= 2 && all_negative(graph.edges@) && is_inverted(graph.edges@);
        let ghost before = graph.edges@;
        proof {
            lemma_sorted_same_edges(before, CalculationType::Weight);
            crate::algorithms::min_sum_spanning_tree::cheapest::lemma_sum_of_same_edges(
                sorted_edges(before, CalculationType::Weight),
                before,
                CalculationType::Cost,
            );
            Self::lemma_search_edges_within(before, n);
            if exact {
                lemma_weight_forest_least_bottleneck(before, n);
            }
        }
        let (op_bst, _, bottleneck_mbst) = graph.mst(CalculationType::Weight);
        let total_cost = graph.calculate_total_cost();
        match op_bst {
            None => {
                proof {
                    assert forall|t: Seq<Edge>| !#[trigger] is_feasible_tree(
                        search_edges(before),
                        n,
                        budget as int,
                        t,
                    ) by {
                        if is_feasible_tree(search_edges(before), n, budget as int, t) {
                            lemma_edges_within_trans(t, search_edges(before), before);
                            crate::algorithms::min_sum_spanning_tree::kruskal::lemma_ends_contained(
                                t,
                                before,
                            );
                            crate::datastructures::graph::connectivity::lemma_contained_spans(
                                ends_of(t),
                                ends_of(before),
                                n,
                            );
                        }
                    }
                    if exact {
                        assert forall|t: Seq<Edge>| !#[trigger] is_feasible_tree(
                            before,
                            n,
                            budget as int,
                            t,
                        ) by {
                            if is_feasible_tree(before, n, budget as int, t) {
                                crate::algorithms::min_sum_spanning_tree::kruskal::lemma_ends_contained(
                                    t,
                                    before,
                                );
                                crate::datastructures::graph::connectivity::lemma_contained_spans(
                                    ends_of(t),
                                    ends_of(before),
                                    n,
                                );
                            }
                        }
                        lemma_best_and_cheapest(before, graph.nodes@, budget as int, 0, (None, 0, 0));
                    }
                }
                return (None, 0, 0, Garbage::default());
            },
            Some(bst) => {
                if total_cost <= budget as i128 {
                    let cost = bst.calculate_total_cost();
                    proof {
                        crate::algorithms::min_sum_spanning_tree::kruskal::lemma_greedy_forest(
                            graph.edges@,
                        );
                        lemma_tree_costs_less(bst.edges@, graph.edges@, graph.order());
                        lemma_edges_within_trans(bst.edges@, graph.edges@, before);
                        if all_negative(before) && bst.edges@.len() > 0 {
                            lemma_all_negative_within(graph.edges@, before);
                        }
                        if exact {
                            assert forall|t: Seq<Edge>| #[trigger]
                                is_feasible_tree(
                                    search_edges(before),
                                    n,
                                    budget as int,
                                    t,
                                ) implies max_weight(bst.edges@) <= max_weight(t) by {
                                lemma_edges_within_trans(t, search_edges(before), before);
                            }
                        }
                    }
                    return (Some(bst), cost, bottleneck_mbst, Garbage::default());
                }
            },
        }
        Self::eliminate_upgraded_edges_above_bottleneck(graph, bottleneck_mbst);
        let mut relevant_edges = Util::unique_weight_list_above_or_eq(graph.edges(), bottleneck_mbst);
        Util::sort_unique(&mut relevant_edges);
        let ghost start = graph.edges@;
        proof {
            assert(start == search_edges(before));
            lemma_filter_fits(
                sorted_edges(before, CalculationType::Weight),
                upgrade_helps(bottleneck_mbst as int),
                graph.order(),
            );
            lemma_edges_within_trans(start, sorted_edges(before, CalculationType::Weight), before);
        }
        let ghost forest = op_bst->0.edges@;
        proof {
            if exact {
                lemma_all_negative_within(start, before);
            }
        }
        let r = Self::dual_bound_search(graph, relevant_edges, budget);
        proof {
            if exact {
                let answer = (r.0, r.1, r.2);
                let ws = relevant_edges@;
                lemma_cheapest_first_is_least(start, graph.nodes@, ws, budget as int, answer);
                // the pivots hold the largest weight of every spanning tree within the
                // budget: it is a weight of the graph, and not below the least bottleneck
                assert forall|t: Seq<Edge>| #[trigger]
                    is_feasible_tree(start, n, budget as int, t) implies exists|q: i64| #[trigger]
                    ws.to_set().contains(q) && max_weight(t) <= q && (t.len() > 0 ==> q == max_weight(
                        t,
                    )) by {
                    lemma_edges_within_trans(t, start, before);
                    assert(is_inverted(start)) by {
                        assert forall|i: int| 0 <= i < start.len() implies NEG_INFINITY < (
                        #[trigger] start[i]).weight <= 0 by {
                            assert(before.contains(start[i]));
                        }
                    }
                    lemma_bottleneck_is_a_weight(start, t);
                    assert(max_weight(forest) <= max_weight(t));
                    crate::datastructures::graph::connectivity::lemma_tree_size(ends_of(forest), n);
                    crate::algorithms::min_sum_spanning_tree::kruskal::lemma_greedy_forest(
                        sorted_edges(before, CalculationType::Weight),
                    );
                    lemma_edges_within_trans(
                        forest,
                        sorted_edges(before, CalculationType::Weight),
                        before,
                    );
                    lemma_all_negative_within(forest, before);
                    assert(forest[0].weight < 0);
                    let q = max_weight(t) as i64;
                    assert(weights_from(start, bottleneck_mbst as int).contains(q));
                }
                if r.0 is Some {
                    lemma_probe_answer_is_answer(start, graph.nodes@, budget as int, answer);
                }
                lemma_closed_in_is_best(start, graph.nodes@, ws.to_set(), budget as int, answer);
            }
            lemma_edges_within_trans(graph.edges@, start, before);
            if r.0 is Some {
                if all_negative(before) {
                    lemma_all_negative_within(start, before);
                }
                lemma_solution_within(
                    start,
                    before,
                    graph.nodes@,
                    budget as int,
                    r.0->0,
                    r.1 as int,
                    r.2 as int,
                );
            } else {
                let ws = relevant_edges@;
                let c = weights_from(start, bottleneck_mbst as int);
                assert forall|q: i64| #[trigger] greatest(c, q) implies !feasible(
                    start,
                    graph.order(),
                    q as int,
                    budget as int,
                ) by {
                    assert(ws.contains(q));
                    let j = choose|j: int| 0 <= j < ws.len() && ws[j] == q;
                    let last = ws.len() - 1;
                    assert(ws.contains(ws[last]));
                    assert(c.contains(ws[last]));
                    assert(ws[last] <= q);
                    if j < last {
                        assert(ws[j] < ws[last]);
                    }
                }
            }
            if exact && upgrades_have_twins(before) {
                // what the searched edges allow at a cost, the graph allows at that cost
                let answer = (r.0, r.1, r.2);
                let ws = relevant_edges@;
                let least = bottleneck_mbst as int;
                lemma_probe_answer_is_answer(before, graph.nodes@, budget as int, answer);
                Self::lemma_search_answer_is_best(before, graph.nodes@, budget as int, answer);
                if r.0 is Some {
                    let t = r.0->0;
                    let k = choose|k: int|
                        {
                            &&& 0 <= k < ws.len()
                            &&& feasible(start, n, #[trigger] ws[k] as int, budget as int)
                            &&& forall|i: int|
                                0 <= i < t.edges@.len() ==> (#[trigger] t.edges@[i]).weight <= ws[k]
                            &&& forall|j: int|
                                0 <= j < k ==> !feasible(start, n, #[trigger] ws[j] as int, budget as int)
                            &&& r.1 == forest_sum(
                                start.filter(weight_at_most(ws[k] as int)),
                                CalculationType::Cost,
                            )
                        };
                    assert(ws.contains(ws[k]));
                    assert(weights_from(start, least).contains(ws[k]));
                    let x = choose|x: int| 0 <= x < start.len() && (#[trigger] start[x]).weight == ws[k];
                    assert(before.contains(start[x]));
                    lemma_lightest_bottleneck_bounds(before, n);
                    assert forall|i: int|
                        0 <= i < before.len() && upgrade_helps(least)(before[i]) implies start.contains(
                        #[trigger] before[i],
                    ) by {
                        let sorted = sorted_edges(before, CalculationType::Weight);
                        assert(sorted.contains(before[i]));
                        let y = choose|y: int| 0 <= y < sorted.len() && sorted[y] == before[i];
                        sorted.lemma_filter_contains(upgrade_helps(least), y);
                    }
                    lemma_useless_upgrades_keep_cheapest(before, start, n, least, ws[k] as int);
                    lemma_same_cheapest_cost(start, before, n, ws[k] as int, budget as int);
                    lemma_best_and_cheapest(before, graph.nodes@, budget as int, ws[k] as int, answer);
                } else {
                    lemma_best_and_cheapest(before, graph.nodes@, budget as int, 0, answer);
                }
            }
        }
        r
    }

    /// The edges that the search starts from are edges of the graph.
    proof fn lemma_search_edges_within(es: Seq<Edge>, n: nat)
        ensures
            edges_within(search_edges(es), es),
    {
        let sorted = sorted_edges(es, CalculationType::Weight);
        lemma_sorted_same_edges(es, CalculationType::Weight);
        let f = upgrade_helps(forest_bottleneck(es, CalculationType::Weight));
        assert forall|i: int| 0 <= i < sorted.filter(f).len() implies es.contains(
            #[trigger] sorted.filter(f)[i],
        ) by {
            assert(sorted.filter(f).contains(sorted.filter(f)[i]));
            sorted.lemma_filter_contains_rev(f, sorted.filter(f)[i]);
            let j = choose|j: int| 0 <= j < sorted.len() && sorted[j] == sorted.filter(f)[i];
            assert(es.contains(sorted[j]));
        }
    }

    /// Probes the middle pivot and, where that fails, the greatest pivot left. A probe
    /// that finds a tree drops the edges above the tree's bottleneck from the graph.
    fn dual_bound_search(graph: &mut MutableGraph, relevant_edges: Vec<i64>, budget: i64) -> (r: (
        Option<MutableGraph>,
        i128,
        i64,
        Garbage,
    ))
        requires
            old(graph).wf(),
        ensures
            final(graph).wf(),
            final(graph).nodes@ == old(graph).nodes@,
            edges_within(final(graph).edges@, old(graph).edges@),
            match r.0 {
                Some(t) => is_solution(
                    old(graph).edges@,
                    old(graph).nodes@,
                    budget as int,
                    t,
                    r.1 as int,
                    r.2 as int,
                ),
                None => {
                    &&& r.1 == 0
                    &&& r.2 == 0
                    &&& final(graph).edges@ == old(graph).edges@
                    &&& relevant_edges@.len() > 0 ==> !feasible(
                        old(graph).edges@,
                        old(graph).order(),
                        relevant_edges@[relevant_edges@.len() - 1] as int,
                        budget as int,
                    )
                },
            },
            all_negative(old(graph).edges@) && ascending(relevant_edges@) && old(graph).order() >= 1
                ==> is_cheapest_at_first(
                old(graph).edges@,
                old(graph).nodes@,
                relevant_edges@,
                budget as int,
                (r.0, r.1, r.2),
            ),
            r.3.trash@.len() == 0,
    {
        let ghost exact = all_negative(graph.edges@) && ascending(relevant_edges@) && graph.order() >= 1;
        let mut max: usize = relevant_edges.len();
        let mut min: usize = 0;
        let mut final_st: Option<(MutableGraph, i128, i64)> = None;
        let ghost start = graph.edges@;
        while min < max
            invariant
                min <= max <= relevant_edges@.len(),
                graph.wf(),
                graph.nodes@ == old(graph).nodes@,
                start == old(graph).edges@,
                edges_within(graph.edges@, start),
                match final_st {
                    Some(st) => is_solution(
                        start,
                        graph.nodes@,
                        budget as int,
                        st.0,
                        st.1 as int,
                        st.2 as int,
                    ),
                    None => {
                        &&& graph.edges@ == start
                        &&& relevant_edges@.len() > 0 && (min > 0 || max < relevant_edges@.len())
                            ==> !feasible(
                            start,
                            graph.order(),
                            relevant_edges@[relevant_edges@.len() - 1] as int,
                            budget as int,
                        )
                    },
                },
                exact == (all_negative(start) && ascending(relevant_edges@) && graph.order() >= 1),
                forall|i: int| 0 <= i < start.len() ==> (#[trigger] start[i]).fits(graph.order()),
                exact ==> same_feasibility(graph.edges@, start, graph.order(), budget as int),
                exact ==> forall|j: int|
                    0 <= j < min ==> !feasible(
                        start,
                        graph.order(),
                        #[trigger] relevant_edges@[j] as int,
                        budget as int,
                    ),
                exact ==> match final_st {
                    Some(st) => {
                        &&& max < relevant_edges@.len()
                        &&& feasible(
                            start,
                            graph.order(),
                            relevant_edges@[max as int] as int,
                            budget as int,
                        )
                        &&& forall|i: int|
                            0 <= i < st.0.edges@.len() ==> (#[trigger] st.0.edges@[i]).weight
                                <= relevant_edges@[max as int]
                        &&& st.1 == forest_sum(
                            start.filter(weight_at_most(relevant_edges@[max as int] as int)),
                            CalculationType::Cost,
                        )
                        &&& forall|q: int|
                            q <= relevant_edges@[max as int] ==> #[trigger] same_cheapest_at(
                                graph.edges@,
                                start,
                                graph.order(),
                                q,
                            )
                    },
                    None => max == relevant_edges@.len(),
                },
            decreases max - min,
        {
            let pivot_a = (max - min) / 2 + min;
            let pivot_b = max - 1;
            let pivot_a_weight = relevant_edges[pivot_a];
            let pivot_b_weight = relevant_edges[pivot_b];
            let ghost current = graph.edges@;
            let ghost untouched = final_st is None;
            match Util::check_pivot(graph, pivot_a_weight, budget) {
                PivotResult::Feasible(st) => {
                    proof {
                        if exact {
                            lemma_all_negative_within(current, start);
                            lemma_probe_step(
                                current,
                                start,
                                graph.nodes@,
                                pivot_a_weight as int,
                                budget as int,
                                st.0,
                                st.1 as int,
                                st.2 as int,
                            );
                            lemma_probe_step_cheapest(
                                current,
                                start,
                                graph.nodes@,
                                pivot_a_weight as int,
                                budget as int,
                                st.0,
                                st.1 as int,
                                st.2 as int,
                            );
                        }
                        lemma_probe_is_solution(
                            current,
                            graph.nodes@,
                            pivot_a_weight as int,
                            budget as int,
                            st.0,
                            st.1 as int,
                            st.2 as int,
                        );
                        if all_negative(start) {
                            lemma_all_negative_within(current, start);
                        }
                        lemma_solution_within(
                            current,
                            start,
                            graph.nodes@,
                            budget as int,
                            st.0,
                            st.1 as int,
                            st.2 as int,
                        );
                        lemma_filter_fits(current, weight_at_most(st.2 as int), graph.order());
                        lemma_edges_within_trans(
                            current.filter(weight_at_most(st.2 as int)),
                            current,
                            start,
                        );
                    }
                    let kept = graph.smaller_or_eq_than(st.2);
                    *graph = kept;
                    final_st = Some(st);
                    max = pivot_a;
                },
                PivotResult::Infeasible => {
                    proof {
                        if exact {
                            lemma_infeasible_below(
                                start,
                                graph.order(),
                                relevant_edges@,
                                pivot_a as int,
                                budget as int,
                            );
                        }
                    }
                    match Util::check_pivot(graph, pivot_b_weight, budget) {
                        PivotResult::Feasible(st) => {
                            proof {
                                if exact {
                                    lemma_all_negative_within(current, start);
                                    lemma_probe_step(
                                        current,
                                        start,
                                        graph.nodes@,
                                        pivot_b_weight as int,
                                        budget as int,
                                        st.0,
                                        st.1 as int,
                                        st.2 as int,
                                    );
                                    lemma_probe_step_cheapest(
                                        current,
                                        start,
                                        graph.nodes@,
                                        pivot_b_weight as int,
                                        budget as int,
                                        st.0,
                                        st.1 as int,
                                        st.2 as int,
                                    );
                                }
                                lemma_probe_is_solution(
                                    current,
                                    graph.nodes@,
                                    pivot_b_weight as int,
                                    budget as int,
                                    st.0,
                                    st.1 as int,
                                    st.2 as int,
                                );
                                if all_negative(start) {
                                    lemma_all_negative_within(current, start);
                                }
                                lemma_solution_within(
                                    current,
                                    start,
                                    graph.nodes@,
                                    budget as int,
                                    st.0,
                                    st.1 as int,
                                    st.2 as int,
                                );
                                lemma_filter_fits(current, weight_at_most(st.2 as int), graph.order());
                                lemma_edges_within_trans(
                                    current.filter(weight_at_most(st.2 as int)),
                                    current,
                                    start,
                                );
                            }
                            let kept = graph.smaller_or_eq_than(st.2);
                            *graph = kept;
                            final_st = Some(st);
                            min = pivot_a + 1;
                            max = pivot_b;
                        },
                        PivotResult::Infeasible => {
                            proof {
                                if exact {
                                    lemma_infeasible_below(
                                        start,
                                        graph.order(),
                                        relevant_edges@,
                                        pivot_b as int,
                                        budget as int,
                                    );
                                }
                            }
                            min = pivot_b + 1;
                        },
                    }
                },
            }
        }
        match final_st {
            Some(st) => (Some(st.0), st.1, st.2, Garbage::default()),
            None => (None, 0, 0, Garbage::default()),
        }
    }

    /// Removes the upgraded edges whose weight before the upgrade is the bottleneck at
    /// most: their upgrade cannot help.
    fn eliminate_upgraded_edges_above_bottleneck(graph: &mut MutableGraph, bottleneck: i64)
        ensures
            final(graph).nodes == old(graph).nodes,
            final(graph).edges@ == old(graph).edges@.filter(upgrade_helps(bottleneck as int)),
    {
        let mut kept: Vec<Edge> = Vec::new();
        let mut i: usize = 0;
        while i < graph.edges.len()
            invariant
                i <= graph.edges@.len(),
                *graph == *old(graph),
                kept@ == graph.edges@.take(i as int).filter(upgrade_helps(bottleneck as int)),
            decreases graph.edges@.len() - i,
        {
            let e = graph.edges[i];
            proof {
                assert(graph.edges@.take(i + 1) =~= graph.edges@.take(i as int).push(e));
                graph.edges@.take(i as int).lemma_filter_push(e, upgrade_helps(bottleneck as int));
            }
            if !e.is_upgraded() || e.get_or_weight() > bottleneck {
                kept.push(e);
            }
            i = i + 1;
        }
        proof {
            assert(graph.edges@.take(i as int) =~= graph.edges@);
        }
        graph.edges = kept;
    }
}

} // verus!
