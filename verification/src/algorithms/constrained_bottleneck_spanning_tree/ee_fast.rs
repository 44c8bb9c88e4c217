use crate::algorithms::constrained_bottleneck_spanning_tree::berman::candidates;
use crate::algorithms::constrained_bottleneck_spanning_tree::edge_elimination::{
    has_free_twin, lemma_tree_without_useless_upgrades, lemma_useless_upgrades_keep_cheapest,
    upgrade_helps, useless_upgrades_have_twins,
};
use crate::algorithms::constrained_bottleneck_spanning_tree::feasibility::{
    is_best_answer, is_cheapest_at_first, is_cheapest_at_least, is_feasible_tree, is_inverted,
    lemma_best_and_cheapest, lemma_candidates_cover, lemma_cheapest_first_is_least,
    lemma_closed_in_is_best, lemma_feasible_grows, lemma_infeasible_below, lemma_light_part,
    lemma_light_part_keeps_cheapest, lemma_more_edges_allow_more, lemma_probe_answer_is_answer,
    lemma_probe_step, lemma_probe_step_cheapest, lemma_replaced_spans,
    lemma_replacement_keeps_cheapest, lemma_same_cheapest_cost, lemma_same_cheapest_trans,
    lemma_spans_grows, lemma_tree_in_light_part, replaced, same_cheapest_at, same_feasibility,
};
use crate::algorithms::constrained_bottleneck_spanning_tree::punnen::{
    lemma_filter_no_duplicates, lemma_median_has_greater, lemma_median_is_least,
    lemma_window_shrinks,
};
use crate::algorithms::min_sum_spanning_tree::kruskal::{
    forest_bottleneck, forest_of, forest_sum, lemma_greedy_forest, lemma_sorted_same_edges,
    sorted_edges, CalculationType,
};
use crate::algorithms::quick_select::QuickSelect;
use crate::algorithms::util::{
    all_negative, ascending, duplicated, edges_within, feasible, is_between, is_probe_result,
    is_solution, lemma_all_negative_within, lemma_concat_within, lemma_edges_within_trans,
    lemma_filter_fits, lemma_first_occurrences_within, lemma_probe_is_solution,
    lemma_solution_within, lemma_within_fits, PivotResult, Util,
};
use crate::datastructures::garbage::Garbage;
use crate::datastructures::graph::connectivity::{is_spanning_tree, spans};
use crate::datastructures::graph::edge::{ends_of, max_weight, Edge, NEG_INFINITY};
use crate::datastructures::graph::mutable_graph::{weight_above, weight_at_most, MutableGraph};
use vstd::prelude::*;

verus! {

/// What a probe of a graph as it is has found.
pub enum PivotOutcome {
    /// A spanning tree within the budget, its cost and its bottleneck.
    Feasible((MutableGraph, i128, i64)),
    /// The cheapest spanning tree, which costs more than the budget.
    BudgetExceeded(MutableGraph),
    /// No spanning tree.
    Infeasible,
}

/// The window of a median refinement is well placed: its lower bound allows no tree
/// although the edges up to it span, and the weights `unique_weights` hold every weight
/// of the graph in the window.
pub open spec fn is_window(
    es: Seq<Edge>,
    n: nat,
    budget: int,
    lower_bound: int,
    upper_bound: int,
    unique_weights: Seq<i64>,
) -> bool {
    &&& n >= 1
    &&& !feasible(es, n, lower_bound, budget)
    &&& spans(ends_of(es.filter(weight_at_most(lower_bound))), n)
    &&& forall|i: int|
        0 <= i < es.len() && lower_bound < es[i].weight <= upper_bound ==> unique_weights.contains(
            (#[trigger] es[i]).weight,
        )
}

/// The answer of a median refinement in a window that is well placed: a solution at
/// the least of the weights that allows a tree, at the cost of the cheapest tree for
/// it; or no solution where no weight up to the upper bound allows a tree.
pub open spec fn is_window_answer(
    es: Seq<Edge>,
    n: nat,
    budget: int,
    upper_bound: int,
    unique_weights: Seq<i64>,
    r: (Option<MutableGraph>, i128, i64),
) -> bool {
    match r.0 {
        Some(t) => exists|p: i64|
            {
                &&& #[trigger] unique_weights.contains(p)
                &&& p <= upper_bound
                &&& feasible(es, n, p as int, budget)
                &&& forall|i: int| 0 <= i < t.edges@.len() ==> (#[trigger] t.edges@[i]).weight <= p
                &&& forall|q: i64| #[trigger]
                    unique_weights.contains(q) && q < p ==> !feasible(es, n, q as int, budget)
                &&& r.1 == forest_sum(es.filter(weight_at_most(p as int)), CalculationType::Cost)
            },
        None => forall|q: i64| #[trigger]
            unique_weights.contains(q) && q <= upper_bound ==> !feasible(es, n, q as int, budget),
    }
}

/// The answer for edges that allow above a bound what the graph allows is an answer for
/// the graph, where the bound allows no tree.
pub proof fn lemma_window_answer_above(
    part: Seq<Edge>,
    es: Seq<Edge>,
    n: nat,
    budget: int,
    bound: int,
    upper_bound: int,
    unique_weights: Seq<i64>,
    r: (Option<MutableGraph>, i128, i64),
)
    requires
        forall|i: int| 0 <= i < es.len() ==> (#[trigger] es[i]).fits(n),
        n >= 1,
        edges_within(part, es),
        !feasible(es, n, bound, budget),
        forall|q: int| bound < q ==> #[trigger] same_cheapest_at(part, es, n, q),
        is_window_answer(part, n, budget, upper_bound, unique_weights, r),
    ensures
        is_window_answer(es, n, budget, upper_bound, unique_weights, r),
{
    lemma_within_fits(part, es, n);
    if r.0 is Some {
        let t = r.0->0;
        let p = choose|p: i64|
            {
                &&& #[trigger] unique_weights.contains(p)
                &&& p <= upper_bound
                &&& feasible(part, n, p as int, budget)
                &&& forall|i: int| 0 <= i < t.edges@.len() ==> (#[trigger] t.edges@[i]).weight <= p
                &&& forall|q: i64| #[trigger]
                    unique_weights.contains(q) && q < p ==> !feasible(part, n, q as int, budget)
                &&& r.1 == forest_sum(part.filter(weight_at_most(p as int)), CalculationType::Cost)
            };
        if p <= bound {
            lemma_more_edges_allow_more(
                part,
                es,
                n,
                p as int,
                budget,
            );
            lemma_feasible_grows(
                es,
                n,
                p as int,
                bound,
                budget,
            );
        }
        assert(same_cheapest_at(part, es, n, p as int));
        crate::algorithms::constrained_bottleneck_spanning_tree::feasibility::lemma_same_cheapest_cost(
            part,
            es,
            n,
            p as int,
            budget,
        );
        assert forall|q: i64| #[trigger] unique_weights.contains(q) && q < p implies !feasible(
            es,
            n,
            q as int,
            budget,
        ) by {
            if q <= bound {
                if feasible(es, n, q as int, budget) {
                    lemma_feasible_grows(
                        es,
                        n,
                        q as int,
                        bound,
                        budget,
                    );
                }
            } else {
                assert(same_cheapest_at(part, es, n, q as int));
            }
        }
    } else {
        assert forall|q: i64| #[trigger]
            unique_weights.contains(q) && q <= upper_bound implies !feasible(es, n, q as int, budget) by {
            if q <= bound {
                if feasible(es, n, q as int, budget) {
                    lemma_feasible_grows(
                        es,
                        n,
                        q as int,
                        bound,
                        budget,
                    );
                }
            } else {
                assert(same_cheapest_at(part, es, n, q as int));
            }
        }
    }
}

/// The answer for edges that allow up to a pivot what the graph allows is an answer for
/// the graph, where the pivot allows a tree.
pub proof fn lemma_window_answer_below(
    part: Seq<Edge>,
    es: Seq<Edge>,
    n: nat,
    budget: int,
    pivot: i64,
    upper_bound: int,
    unique_weights: Seq<i64>,
    r: (Option<MutableGraph>, i128, i64),
)
    requires
        pivot <= upper_bound,
        unique_weights.contains(pivot),
        feasible(es, n, pivot as int, budget),
        forall|q: int| q <= pivot ==> #[trigger] same_cheapest_at(part, es, n, q),
        is_window_answer(part, n, budget, pivot as int, unique_weights, r),
    ensures
        is_window_answer(es, n, budget, upper_bound, unique_weights, r),
        r.0 is Some,
{
    if r.0 is Some {
        let t = r.0->0;
        let p = choose|p: i64|
            {
                &&& #[trigger] unique_weights.contains(p)
                &&& p <= pivot
                &&& feasible(part, n, p as int, budget)
                &&& forall|i: int| 0 <= i < t.edges@.len() ==> (#[trigger] t.edges@[i]).weight <= p
                &&& forall|q: i64| #[trigger]
                    unique_weights.contains(q) && q < p ==> !feasible(part, n, q as int, budget)
                &&& r.1 == forest_sum(part.filter(weight_at_most(p as int)), CalculationType::Cost)
            };
        assert(same_cheapest_at(part, es, n, p as int));
        crate::algorithms::constrained_bottleneck_spanning_tree::feasibility::lemma_same_cheapest_cost(
            part,
            es,
            n,
            p as int,
            budget,
        );
        assert forall|q: i64| #[trigger] unique_weights.contains(q) && q < p implies !feasible(
            es,
            n,
            q as int,
            budget,
        ) by {
            assert(same_cheapest_at(part, es, n, q as int));
        }
    } else {
        assert(same_cheapest_at(part, es, n, pivot as int));
        assert(!feasible(part, n, pivot as int, budget));
    }
}

/// The second graph holds both copies of every edge of the first, which is connected,
/// has two nodes or more and weights below zero, also after an upgrade; and the budget
/// is not below zero.
pub open spec fn is_pair(original_graph: MutableGraph, duplicated_graph: MutableGraph, budget: int) -> bool {
    &&& original_graph.order() >= 2
    &&& duplicated_graph.nodes@.len() == original_graph.nodes@.len()
    &&& duplicated_graph.edges@ == duplicated(original_graph.edges@)
    &&& spans(ends_of(original_graph.edges@), original_graph.order())
    &&& budget >= 0
    &&& forall|i: int|
        0 <= i < original_graph.edges@.len() ==> NEG_INFINITY < (#[trigger] original_graph.edges@[i]).weight < 0
            && NEG_INFINITY < original_graph.edges@[i].upgraded_weight < 0
}

/// Among the copies of the edges that weigh a bound at most, every upgraded edge that
/// weighed a smaller bound at most before its upgrade has its free twin.
pub proof fn lemma_light_copies_have_twins(es: Seq<Edge>, lower: int, upper: int)
    requires
        upper <= lower,
    ensures
        useless_upgrades_have_twins(duplicated(es).filter(weight_at_most(lower)), upper),
{
    let both = duplicated(es);
    let light = both.filter(weight_at_most(lower));
    lemma_light_part(both, lower);
    assert forall|i: int|
        0 <= i < light.len() && (#[trigger] light[i]).upgraded && light[i].or_weight
            <= upper implies has_free_twin(light, i) by {
        assert(both.contains(light[i]));
        let x = choose|x: int| 0 <= x < both.len() && both[x] == light[i];
        assert(x % 2 == 1);
        let y = x - 1;
        assert(y / 2 == x / 2);
        assert(both[y] == crate::algorithms::util::primary_copy(es[y / 2]));
        assert(both[y].weight == light[i].or_weight);
        assert(light.contains(both[y]));
        let j = choose|j: int| 0 <= j < light.len() && light[j] == both[y];
        assert(!light[j].upgraded && light[j].cost == 0 && light[j].ends() == light[i].ends()
            && light[j].weight == light[i].or_weight);
    }
}

/// A spanning tree within the budget of the graph with both copies of every edge can
/// do without the edges that the search drops, at no larger a bottleneck: without the
/// edges above the least bottleneck of the graph itself, and without the upgrades of
/// edges that weighed the least bottleneck of all at most.
pub proof fn lemma_tree_among_kept_edges(
    es: Seq<Edge>,
    n: nat,
    budget: int,
    lower: int,
    upper: int,
    lightest: Seq<Edge>,
    t: Seq<Edge>,
) -> (other: Seq<Edge>)
    requires
        n >= 2,
        budget >= 0,
        forall|i: int| 0 <= i < duplicated(es).len() ==> (#[trigger] duplicated(es)[i]).fits(n),
        forall|i: int| 0 <= i < es.len() ==> NEG_INFINITY < (#[trigger] es[i]).weight < 0,
        edges_within(lightest, es),
        is_spanning_tree(ends_of(lightest), n),
        lower == max_weight(lightest),
        upper <= max_weight(t),
        upper <= lower,
        is_feasible_tree(duplicated(es), n, budget, t),
    ensures
        is_feasible_tree(
            duplicated(es).filter(weight_at_most(lower)).filter(upgrade_helps(upper)),
            n,
            budget,
            other,
        ),
        max_weight(other) <= max_weight(t),
{
    let both = duplicated(es);
    let light = both.filter(weight_at_most(lower));
    let kept = light.filter(upgrade_helps(upper));
    lemma_light_part(both, lower);
    lemma_filter_fits(both, weight_at_most(lower), n);
    if forall|i: int| 0 <= i < t.len() ==> (#[trigger] t[i]).weight <= lower {
        // the tree lies among the light edges, whose useless upgrades have twins
        lemma_tree_in_light_part(both, lower, t);
        assert(is_feasible_tree(light, n, budget, t));
        lemma_light_copies_have_twins(es, lower, upper);
        let other = lemma_tree_without_useless_upgrades(light, n, budget, upper, t);
        assert(edges_within(other, kept)) by {
            assert forall|i: int| 0 <= i < other.len() implies kept.contains(#[trigger] other[i]) by {
                assert(light.contains(other[i]));
                let x = choose|x: int| 0 <= x < light.len() && light[x] == other[i];
                light.lemma_filter_contains(upgrade_helps(upper), x);
            }
        }
        other
    } else {
        // the first copies of the lightest tree of the graph itself do better
        let i0 = choose|i: int| 0 <= i < t.len() && !((#[trigger] t[i]).weight <= lower);
        crate::algorithms::bottleneck::lemma_max_weight_bounds(t, i0);
        let copies = Seq::new(lightest.len(), |i: int| crate::algorithms::util::primary_copy(lightest[i]));
        crate::algorithms::constrained_bottleneck_spanning_tree::upgrades::lemma_copies_measure_alike(
            copies,
            lightest,
        );
        crate::algorithms::constrained_bottleneck_spanning_tree::upgrades::lemma_free_edges_cost_nothing(
            copies,
        );
        assert(edges_within(copies, kept)) by {
            assert forall|i: int| 0 <= i < copies.len() implies kept.contains(#[trigger] copies[i]) by {
                assert(es.contains(lightest[i]));
                let j = choose|j: int| 0 <= j < es.len() && es[j] == lightest[i];
                assert(both[2 * j] == crate::algorithms::util::primary_copy(es[j]));
                crate::algorithms::bottleneck::lemma_max_weight_bounds(lightest, i);
                assert(light.contains(both[2 * j]));
                let x = choose|x: int| 0 <= x < light.len() && light[x] == copies[i];
                light.lemma_filter_contains(upgrade_helps(upper), x);
            }
        }
        copies
    }
}

/// Edge elimination between a lower and an upper bound that two searches for a
/// spanning tree of least bottleneck give.
pub struct EE();

impl EE {
    /// A spanning tree of the graph with upgrades that is within the budget, with its
    /// cost and bottleneck, or no solution with cost and bottleneck 0. The graph without
    /// upgrades gives a lower bound: edges of the other graph above it are dropped, and
    /// so are the upgrades that cannot help. Where the second graph holds both copies of
    /// every edge of the first, no spanning tree within the budget has a smaller
    /// bottleneck than the answer, and the answer costs what the cheapest spanning tree
    /// of the edges up to its bottleneck costs.
    pub fn run(original_graph: &mut MutableGraph, duplicated_graph: &mut MutableGraph, budget: i64) -> (r:
        (Option<MutableGraph>, i128, i64))
        requires
            old(original_graph).wf(),
            old(duplicated_graph).wf(),
        ensures
            *final(original_graph) == *old(original_graph),
            final(duplicated_graph).wf(),
            final(duplicated_graph).nodes@ == old(duplicated_graph).nodes@,
            edges_within(final(duplicated_graph).edges@, old(duplicated_graph).edges@),
            match r.0 {
                Some(t) => is_solution(
                    old(duplicated_graph).edges@,
                    old(duplicated_graph).nodes@,
                    budget as int,
                    t,
                    r.1 as int,
                    r.2 as int,
                ),
                None => r.1 == 0 && r.2 == 0,
            },
            is_pair(*old(original_graph), *old(duplicated_graph), budget as int) ==> is_best_answer(
                old(duplicated_graph).edges@,
                old(duplicated_graph).nodes@,
                budget as int,
                r,
            ),
            is_pair(*old(original_graph), *old(duplicated_graph), budget as int)
                ==> is_cheapest_at_least(
                old(duplicated_graph).edges@,
                old(duplicated_graph).nodes@,
                candidates(old(duplicated_graph).edges@),
                budget as int,
                r,
            ),
    {
        let ghost before = duplicated_graph.edges@;
        let ghost first = original_graph.edges@;
        let ghost n = duplicated_graph.order();
        let ghost nodes = duplicated_graph.nodes@;
        let ghost paired = is_pair(*original_graph, *duplicated_graph, budget as int);
        let (lightest, lower_bound) = original_graph.mbst();
        let (least, upper_bound) = duplicated_graph.mbst();
        proof {
            if paired {
                // both bounds are largest weights of spanning trees, and the bound of
                // the graph with both copies is the lower one
                let mo = lightest->0.edges@;
                let md = least->0.edges@;
                assert(all_negative(first)) by {
                    assert forall|i: int| 0 <= i < first.len() implies (#[trigger] first[i]).weight
                        < 0 by {}
                }
                lemma_all_negative_within(mo, first);
                assert(mo[0].weight < 0);
                assert(all_negative(before)) by {
                    assert forall|i: int| 0 <= i < before.len() implies (#[trigger] before[i]).weight
                        < 0 by {
                        assert(NEG_INFINITY < first[i / 2].weight < 0);
                    }
                }
                assert(crate::datastructures::graph::connectivity::contained(
                    ends_of(first),
                    ends_of(before),
                )) by {
                    assert forall|i: int| 0 <= i < ends_of(first).len() implies ends_of(
                        before,
                    ).contains(#[trigger] ends_of(first)[i]) by {
                        assert(ends_of(before)[2 * i] == ends_of(first)[i]);
                    }
                }
                crate::datastructures::graph::connectivity::lemma_contained_spans(
                    ends_of(first),
                    ends_of(before),
                    n,
                );
                lemma_all_negative_within(md, before);
                assert(md[0].weight < 0);
                let copies = Seq::new(mo.len(), |i: int| crate::algorithms::util::primary_copy(mo[i]));
                crate::algorithms::constrained_bottleneck_spanning_tree::upgrades::lemma_copies_measure_alike(
                    copies,
                    mo,
                );
                assert(edges_within(copies, before)) by {
                    assert forall|i: int| 0 <= i < copies.len() implies before.contains(
                        #[trigger] copies[i],
                    ) by {
                        assert(first.contains(mo[i]));
                        let j = choose|j: int| 0 <= j < first.len() && first[j] == mo[i];
                        assert(before[2 * j] == crate::algorithms::util::primary_copy(first[j]));
                    }
                }
                assert(edges_within(copies, before) && spans(ends_of(copies), n));
                assert(max_weight(md) <= max_weight(copies));
            }
        }
        let kept = duplicated_graph.smaller_or_eq_than(lower_bound);
        proof {
            lemma_filter_fits(before, weight_at_most(lower_bound as int), duplicated_graph.order());
        }
        *duplicated_graph = kept;
        let ghost light = duplicated_graph.edges@;
        Self::drop_useless_upgrades(duplicated_graph, upper_bound);
        proof {
            lemma_filter_fits(light, upgrade_helps(upper_bound as int), duplicated_graph.order());
            lemma_edges_within_trans(duplicated_graph.edges@, light, before);
        }
        let ghost start = duplicated_graph.edges@;
        let mut unique_weights = Util::unique_weight_list_above_or_eq(
            duplicated_graph.edges(),
            upper_bound,
        );
        Util::sort_unique(&mut unique_weights);
        proof {
            lemma_edges_within_trans(start, light, before);
            if paired {
                lemma_all_negative_within(start, before);
            }
        }
        let r = Self::dual_bound_search(duplicated_graph, &unique_weights, budget);
        proof {
            lemma_edges_within_trans(duplicated_graph.edges@, start, before);
            if r.0 is Some {
                if all_negative(before) {
                    lemma_all_negative_within(start, before);
                }
                lemma_solution_within(
                    start,
                    before,
                    duplicated_graph.nodes@,
                    budget as int,
                    r.0->0,
                    r.1 as int,
                    r.2 as int,
                );
            }
            if paired {
                let mo = lightest->0.edges@;
                let md = least->0.edges@;
                let ws = unique_weights@;
                // among the edges that are kept the answer cannot be beaten
                lemma_cheapest_first_is_least(start, nodes, ws, budget as int, r);
                assert(is_inverted(before)) by {
                    assert forall|i: int| 0 <= i < before.len() implies NEG_INFINITY < (
                    #[trigger] before[i]).weight <= 0 by {
                        assert(NEG_INFINITY < first[i / 2].weight < 0 && NEG_INFINITY < first[i
                            / 2].upgraded_weight < 0);
                    }
                }
                assert forall|t: Seq<Edge>| #[trigger]
                    is_feasible_tree(start, n, budget as int, t) implies exists|q: i64| #[trigger]
                    ws.to_set().contains(q) && max_weight(t) <= q && (t.len() > 0 ==> q == max_weight(
                        t,
                    )) by {
                    lemma_edges_within_trans(t, start, before);
                    assert(is_inverted(start)) by {
                        assert forall|i: int| 0 <= i < start.len() implies NEG_INFINITY < (
                        #[trigger] start[i]).weight <= 0 by {
                            assert(before.contains(start[i]));
                            let x = choose|x: int| 0 <= x < before.len() && before[x] == start[i];
                            assert(NEG_INFINITY < first[x / 2].weight < 0 && NEG_INFINITY < first[x
                                / 2].upgraded_weight < 0);
                        }
                    }
                    crate::algorithms::constrained_bottleneck_spanning_tree::feasibility::lemma_bottleneck_is_a_weight(
                        start,
                        t,
                    );
                    assert(max_weight(md) <= max_weight(t));
                    let q = max_weight(t) as i64;
                    assert(crate::algorithms::util::weights_from(start, upper_bound as int).contains(q));
                }
                lemma_probe_answer_is_answer(start, nodes, budget as int, r);
                lemma_closed_in_is_best(start, nodes, ws.to_set(), budget as int, r);
                // and every spanning tree within the budget has its like among them
                assert forall|t: Seq<Edge>| #[trigger]
                    is_feasible_tree(before, n, budget as int, t) implies exists|other: Seq<Edge>| #[trigger]
                    is_feasible_tree(start, n, budget as int, other) && max_weight(other) <= max_weight(
                        t,
                    ) by {
                    assert(max_weight(md) <= max_weight(t));
                    let other = lemma_tree_among_kept_edges(
                        first,
                        n,
                        budget as int,
                        lower_bound as int,
                        upper_bound as int,
                        mo,
                        t,
                    );
                }
                if r.0 is Some {
                    let found = r.0->0.edges@;
                    assert forall|t: Seq<Edge>| #[trigger]
                        is_feasible_tree(before, n, budget as int, t) implies max_weight(found)
                        <= max_weight(t) by {
                        let other = choose|other: Seq<Edge>| #[trigger]
                            is_feasible_tree(start, n, budget as int, other) && max_weight(other)
                                <= max_weight(t);
                    }
                    // and what the kept edges allow at a cost, the graph allows at that cost
                    let k = choose|k: int|
                        {
                            &&& 0 <= k < ws.len()
                            &&& feasible(start, n, #[trigger] ws[k] as int, budget as int)
                            &&& forall|i: int|
                                0 <= i < found.len() ==> (#[trigger] found[i]).weight <= ws[k]
                            &&& forall|j: int|
                                0 <= j < k ==> !feasible(start, n, #[trigger] ws[j] as int, budget as int)
                            &&& r.1 == forest_sum(
                                start.filter(weight_at_most(ws[k] as int)),
                                CalculationType::Cost,
                            )
                        };
                    let q = ws[k] as int;
                    assert(ws.contains(ws[k]));
                    assert(crate::algorithms::util::weights_from(start, upper_bound as int).contains(ws[k]));
                    let x = choose|x: int| 0 <= x < start.len() && (#[trigger] start[x]).weight == ws[k];
                    assert(light.contains(start[x]));
                    assert(before.contains(start[x]));
                    lemma_light_part(before, lower_bound as int);
                    assert(q <= lower_bound);
                    lemma_light_part_keeps_cheapest(light, before, n, lower_bound as int, q);
                    lemma_light_copies_have_twins(first, lower_bound as int, upper_bound as int);
                    assert forall|t: Seq<Edge>| #[trigger]
                        edges_within(t, light) && is_spanning_tree(ends_of(t), n) implies upper_bound
                        <= max_weight(t) by {
                        lemma_edges_within_trans(t, light, before);
                    }
                    assert forall|i: int|
                        0 <= i < light.len() && upgrade_helps(upper_bound as int)(
                            light[i],
                        ) implies start.contains(#[trigger] light[i]) by {
                        light.lemma_filter_contains(upgrade_helps(upper_bound as int), i);
                    }
                    lemma_useless_upgrades_keep_cheapest(light, start, n, upper_bound as int, q);
                    lemma_same_cheapest_trans(start, light, before, n, q);
                    lemma_same_cheapest_cost(start, before, n, q, budget as int);
                    lemma_best_and_cheapest(before, nodes, budget as int, q, r);
                } else {
                    assert forall|t: Seq<Edge>| !#[trigger] is_feasible_tree(
                        before,
                        n,
                        budget as int,
                        t,
                    ) by {
                        if is_feasible_tree(before, n, budget as int, t) {
                            let other = choose|other: Seq<Edge>| #[trigger]
                                is_feasible_tree(start, n, budget as int, other) && max_weight(other)
                                    <= max_weight(t);
                        }
                    }
                    lemma_best_and_cheapest(before, nodes, budget as int, 0, r);
                }
            }
        }
        r
    }

    /// Removes the upgraded edges whose weight before the upgrade is the bottleneck at
    /// most.
    fn drop_useless_upgrades(graph: &mut MutableGraph, bottleneck: i64)
        ensures
            final(graph).nodes == old(graph).nodes,
            final(graph).edges@ == old(graph).edges@.filter(upgrade_helps(bottleneck as int)),
    {
        let mut kept: Vec<Edge> = Vec::new();
        let mut i: usize = 0;
        while i < graph.edges.len()
            invariant
                i <= graph.edges@.len(),
                *graph == *old(graph),
                kept@ == graph.edges@.take(i as int).filter(upgrade_helps(bottleneck as int)),
            decreases graph.edges@.len() - i,
        {
            let e = graph.edges[i];
            proof {
                assert(graph.edges@.take(i + 1) =~= graph.edges@.take(i as int).push(e));
                graph.edges@.take(i as int).lemma_filter_push(e, upgrade_helps(bottleneck as int));
            }
            if !e.is_upgraded() || e.get_or_weight() > bottleneck {
                kept.push(e);
            }
            i = i + 1;
        }
        proof {
            assert(graph.edges@.take(i as int) =~= graph.edges@);
        }
        graph.edges = kept;
    }

    /// Bisection over the distinct weights that are not above zero, on a graph that
    /// shrinks with every probe; and the graphs that the search is done with.
    pub fn run_test_bin(graph: MutableGraph, budget: i64) -> (r: (
        Option<MutableGraph>,
        i128,
        i64,
        Garbage,
    ))
        requires
            graph.wf(),
        ensures
            match r.0 {
                Some(t) => is_solution(
                    graph.edges@,
                    graph.nodes@,
                    budget as int,
                    t,
                    r.1 as int,
                    r.2 as int,
                ),
                None => r.1 == 0 && r.2 == 0,
            },
            graph.order() >= 2 && is_inverted(graph.edges@) ==> is_best_answer(
                graph.edges@,
                graph.nodes@,
                budget as int,
                (r.0, r.1, r.2),
            ),
            graph.order() >= 1 ==> is_cheapest_at_least(
                graph.edges@,
                graph.nodes@,
                candidates(graph.edges@),
                budget as int,
                (r.0, r.1, r.2),
            ),
    {
        let ghost es = graph.edges@;
        let ghost nodes = graph.nodes@;
        let mut unique_weights = Util::unique_weight_list(graph.edges(), NEG_INFINITY, 0);
        Util::sort_unique(&mut unique_weights);
        proof {
            if nodes.len() >= 2 && is_inverted(es) {
                lemma_candidates_cover(es, nodes.len(), budget as int, unique_weights@.to_set());
            }
        }
        if unique_weights.len() == 0 {
            proof {
                if nodes.len() >= 2 && is_inverted(es) {
                    assert forall|t: Seq<Edge>| !#[trigger] is_feasible_tree(
                        es,
                        nodes.len(),
                        budget as int,
                        t,
                    ) by {
                        if is_feasible_tree(es, nodes.len(), budget as int, t) {
                            let q = choose|q: i64| #[trigger]
                                unique_weights@.to_set().contains(q) && max_weight(t) <= q;
                            assert(unique_weights@.contains(q));
                        }
                    }
                }
            }
            return (None, 0, 0, Garbage::new());
        }
        let upper_bound = unique_weights[unique_weights.len() - 1];
        let lower_bound = unique_weights[0];
        let r = Self::bisection_alternative(graph, &unique_weights, budget, lower_bound, upper_bound);
        proof {
            if nodes.len() >= 1 {
                lemma_cheapest_first_is_least(
                    es,
                    nodes,
                    unique_weights@,
                    budget as int,
                    (r.0, r.1, r.2),
                );
            }
            if nodes.len() >= 2 && is_inverted(es) {
                let answer = (r.0, r.1, r.2);
                lemma_cheapest_first_is_least(es, nodes, unique_weights@, budget as int, answer);
                lemma_probe_answer_is_answer(es, nodes, budget as int, answer);
                lemma_closed_in_is_best(es, nodes, unique_weights@.to_set(), budget as int, answer);
            }
        }
        r
    }

    /// Bisection over the pivots on a graph that shrinks: a probe that finds a tree
    /// within the budget leaves the edges that it looked at; one that finds a tree above
    /// the budget leaves that tree and the edges above the pivot; one that finds no tree
    /// leaves the graph as it is.
    pub fn bisection_alternative(
        graph: MutableGraph,
        unique_weights: &Vec<i64>,
        budget: i64,
        lower_bound: i64,
        upper_bound: i64,
    ) -> (r: (Option<MutableGraph>, i128, i64, Garbage))
        requires
            graph.wf(),
        ensures
            match r.0 {
                Some(t) => is_solution(
                    graph.edges@,
                    graph.nodes@,
                    budget as int,
                    t,
                    r.1 as int,
                    r.2 as int,
                ),
                None => r.1 == 0 && r.2 == 0,
            },
            ascending(unique_weights@) && graph.order() >= 1 ==> is_cheapest_at_first(
                graph.edges@,
                graph.nodes@,
                unique_weights@,
                budget as int,
                (r.0, r.1, r.2),
            ),
            r.3.trash@.len() <= unique_weights@.len(),
    {
        let ghost exact = ascending(unique_weights@) && graph.order() >= 1;
        let ghost start = graph.edges@;
        let ghost nodes = graph.nodes@;
        let mut graph = graph;
        let mut max: usize = unique_weights.len();
        let mut min: usize = 0;
        let mut final_st: Option<MutableGraph> = None;
        let mut cost: i128 = 0;
        let mut bottleneck: i64 = 0;
        let mut bin = Garbage::new();
        while min < max
            invariant
                min <= max <= unique_weights@.len(),
                graph.wf(),
                graph.nodes@ == nodes,
                edges_within(graph.edges@, start),
                bin.trash@.len() + (max - min) <= unique_weights@.len(),
                match final_st {
                    Some(t) => is_solution(start, nodes, budget as int, t, cost as int, bottleneck as int),
                    None => cost == 0 && bottleneck == 0,
                },
                exact == (ascending(unique_weights@) && nodes.len() >= 1),
                forall|i: int| 0 <= i < start.len() ==> (#[trigger] start[i]).fits(nodes.len()),
                exact ==> forall|j: int|
                    min <= j < max ==> same_cheapest_at(
                        graph.edges@,
                        start,
                        nodes.len(),
                        #[trigger] unique_weights@[j] as int,
                    ),
                exact ==> forall|j: int|
                    0 <= j < min ==> !feasible(
                        start,
                        nodes.len(),
                        #[trigger] unique_weights@[j] as int,
                        budget as int,
                    ),
                exact ==> match final_st {
                    Some(t) => {
                        &&& max < unique_weights@.len()
                        &&& feasible(
                            start,
                            nodes.len(),
                            unique_weights@[max as int] as int,
                            budget as int,
                        )
                        &&& forall|i: int|
                            0 <= i < t.edges@.len() ==> (#[trigger] t.edges@[i]).weight
                                <= unique_weights@[max as int]
                        &&& cost == forest_sum(
                            start.filter(weight_at_most(unique_weights@[max as int] as int)),
                            CalculationType::Cost,
                        )
                    },
                    None => max == unique_weights@.len(),
                },
            decreases max - min,
        {
            let pivot = min + (max - 1 - min) / 2;
            let ghost current = graph.edges@;
            let mut graph_w = graph.smaller_or_eq_than(unique_weights[pivot]);
            proof {
                lemma_filter_fits(
                    current,
                    weight_at_most(unique_weights@[pivot as int] as int),
                    nodes.len(),
                );
                lemma_sorted_same_edges(graph_w.edges@, CalculationType::Cost);
                if all_negative(start) {
                    lemma_all_negative_within(current, start);
                }
            }
            let ghost sub = graph_w.edges@;
            match Self::check_pivot_bisection(&mut graph_w, budget) {
                PivotOutcome::Feasible(st) => {
                    proof {
                        lemma_probe_is_solution(
                            current,
                            nodes,
                            unique_weights@[pivot as int] as int,
                            budget as int,
                            st.0,
                            st.1 as int,
                            st.2 as int,
                        );
                        lemma_solution_within(
                            current,
                            start,
                            nodes,
                            budget as int,
                            st.0,
                            st.1 as int,
                            st.2 as int,
                        );
                        lemma_edges_within_trans(graph_w.edges@, sub, current);
                        lemma_edges_within_trans(graph_w.edges@, current, start);
                        if exact {
                            let p = unique_weights@[pivot as int] as int;
                            lemma_light_part(current, p);
                            assert(same_cheapest_at(current, start, nodes.len(), p));
                            assert(feasible(current, nodes.len(), p, budget as int));
                            lemma_same_cheapest_cost(current, start, nodes.len(), p, budget as int);
                            assert forall|i: int| 0 <= i < st.0.edges@.len() implies (
                            #[trigger] st.0.edges@[i]).weight <= p by {
                                assert(sub.contains(st.0.edges@[i]));
                            }
                            assert forall|i: int|
                                0 <= i < current.len() && current[i].weight <= p implies graph_w.edges@.contains(
                                #[trigger] current[i],
                            ) by {
                                assert(sub.contains(current[i]));
                                let x = choose|x: int| 0 <= x < sub.len() && sub[x] == current[i];
                                assert(graph_w.edges@.contains(sub[x]));
                            }
                            assert forall|j: int| min <= j < pivot implies same_cheapest_at(
                                graph_w.edges@,
                                start,
                                nodes.len(),
                                #[trigger] unique_weights@[j] as int,
                            ) by {
                                assert(unique_weights@[j] < unique_weights@[pivot as int]);
                                lemma_light_part_keeps_cheapest(
                                    graph_w.edges@,
                                    current,
                                    nodes.len(),
                                    p,
                                    unique_weights@[j] as int,
                                );
                                lemma_same_cheapest_trans(
                                    graph_w.edges@,
                                    current,
                                    start,
                                    nodes.len(),
                                    unique_weights@[j] as int,
                                );
                            }
                        }
                    }
                    max = pivot;
                    final_st = Some(st.0);
                    cost = st.1;
                    bottleneck = st.2;
                    bin.add(graph);
                    graph = graph_w;
                },
                PivotOutcome::BudgetExceeded(st) => {
                    let disjoint_graph = graph.bigger_than(unique_weights[pivot]);
                    let union_edges = Util::union_edges(disjoint_graph.edges(), st.edges());
                    proof {
                        lemma_filter_fits(
                            current,
                            weight_above(unique_weights@[pivot as int] as int),
                            nodes.len(),
                        );
                        lemma_greedy_forest(sorted_edges(sub, CalculationType::Cost));
                        lemma_edges_within_trans(
                            st.edges@,
                            sorted_edges(sub, CalculationType::Cost),
                            sub,
                        );
                        lemma_edges_within_trans(st.edges@, sub, current);
                        lemma_concat_within(disjoint_graph.edges@, st.edges@, current);
                        lemma_first_occurrences_within(disjoint_graph.edges@ + st.edges@);
                        lemma_edges_within_trans(
                            union_edges@,
                            disjoint_graph.edges@ + st.edges@,
                            current,
                        );
                        lemma_edges_within_trans(union_edges@, current, start);
                        lemma_within_fits(union_edges@, current, nodes.len());
                        if exact {
                            let p = unique_weights@[pivot as int] as int;
                            assert(same_cheapest_at(current, start, nodes.len(), p));
                            lemma_infeasible_below(
                                start,
                                nodes.len(),
                                unique_weights@,
                                pivot as int,
                                budget as int,
                            );
                            assert(union_edges@ == replaced(current, p));
                            assert forall|j: int| pivot < j < max implies same_cheapest_at(
                                union_edges@,
                                start,
                                nodes.len(),
                                #[trigger] unique_weights@[j] as int,
                            ) by {
                                assert(unique_weights@[pivot as int] < unique_weights@[j]);
                                lemma_replacement_keeps_cheapest(
                                    current,
                                    nodes.len(),
                                    p,
                                    unique_weights@[j] as int,
                                );
                                lemma_same_cheapest_trans(
                                    union_edges@,
                                    current,
                                    start,
                                    nodes.len(),
                                    unique_weights@[j] as int,
                                );
                            }
                        }
                    }
                    let nodes_copy = graph.nodes_copy();
                    bin.add(graph);
                    graph = MutableGraph::new(nodes_copy, union_edges);
                    min = pivot + 1;
                },
                PivotOutcome::Infeasible => {
                    proof {
                        if exact {
                            assert(same_cheapest_at(
                                current,
                                start,
                                nodes.len(),
                                unique_weights@[pivot as int] as int,
                            ));
                            lemma_infeasible_below(
                                start,
                                nodes.len(),
                                unique_weights@,
                                pivot as int,
                                budget as int,
                            );
                        }
                    }
                    min = pivot + 1;
                },
            }
        }
        (final_st, cost, bottleneck, bin)
    }

    /// Probes the graph as it is: its cheapest spanning tree, and whether that is
    /// within the budget. The graph's edges are left in scanning order.
    fn check_pivot_bisection(graph: &mut MutableGraph, budget: i64) -> (r: PivotOutcome)
        requires
            old(graph).wf(),
        ensures
            final(graph).wf(),
            final(graph).nodes == old(graph).nodes,
            final(graph).edges@ == sorted_edges(old(graph).edges@, CalculationType::Cost),
            match r {
                PivotOutcome::Feasible((t, cost, bottleneck)) => {
                    &&& spans(ends_of(old(graph).edges@), old(graph).order())
                    &&& cost <= budget
                    &&& t.wf()
                    &&& t.nodes@ == old(graph).nodes@
                    &&& t.edges@ == forest_of(old(graph).edges@, CalculationType::Cost)
                    &&& cost == forest_sum(old(graph).edges@, CalculationType::Cost)
                    &&& bottleneck == forest_bottleneck(old(graph).edges@, CalculationType::Cost)
                    &&& old(graph).order() >= 1 ==> is_spanning_tree(
                        ends_of(t.edges@),
                        old(graph).order(),
                    )
                },
                PivotOutcome::BudgetExceeded(t) => {
                    &&& spans(ends_of(old(graph).edges@), old(graph).order())
                    &&& forest_sum(old(graph).edges@, CalculationType::Cost) > budget
                    &&& t.wf()
                    &&& t.nodes@ == old(graph).nodes@
                    &&& t.edges@ == forest_of(old(graph).edges@, CalculationType::Cost)
                },
                PivotOutcome::Infeasible => !spans(ends_of(old(graph).edges@), old(graph).order()),
            },
    {
        let (op_mst, cost, bottleneck) = graph.mst(CalculationType::Cost);
        match op_mst {
            Some(st) => {
                if cost <= budget as i128 {
                    PivotOutcome::Feasible((st, cost, bottleneck))
                } else {
                    PivotOutcome::BudgetExceeded(st)
                }
            },
            None => PivotOutcome::Infeasible,
        }
    }

    /// Median refinement on the graph itself: the window above `lower_bound` and up to
    /// `upper_bound` is halved at the median of the weights in it. Where the edges up to
    /// the median hold no spanning tree, or the window is empty, there is no solution.
    pub fn recursion(
        graph: &mut MutableGraph,
        unique_weights: &Vec<i64>,
        budget: i64,
        lower_bound: i64,
        upper_bound: i64,
    ) -> (r: (Option<MutableGraph>, i128, i64))
        requires
            old(graph).wf(),
            unique_weights@.no_duplicates(),
        ensures
            *final(graph) == *old(graph),
            match r.0 {
                Some(t) => is_solution(
                    old(graph).edges@,
                    old(graph).nodes@,
                    budget as int,
                    t,
                    r.1 as int,
                    r.2 as int,
                ),
                None => r.1 == 0 && r.2 == 0,
            },
            is_window(
                old(graph).edges@,
                old(graph).order(),
                budget as int,
                lower_bound as int,
                upper_bound as int,
                unique_weights@,
            ) ==> is_window_answer(
                old(graph).edges@,
                old(graph).order(),
                budget as int,
                upper_bound as int,
                unique_weights@,
                r,
            ),
        decreases unique_weights@.filter(is_between(lower_bound as int, upper_bound as int)).len(),
    {
        let ghost es = graph.edges@;
        let ghost n = graph.order();
        let ghost lb = lower_bound as int;
        let ghost ub = upper_bound as int;
        let ghost placed = is_window(es, n, budget as int, lb, ub, unique_weights@);
        let mut l = Util::relevant_slice(unique_weights, lower_bound, upper_bound);
        if l.len() == 0 {
            proof {
                if placed {
                    assert forall|q: i64| #[trigger]
                        unique_weights@.contains(q) && q <= ub implies !feasible(
                        es,
                        n,
                        q as int,
                        budget as int,
                    ) by {
                        if q <= lb {
                            if feasible(es, n, q as int, budget as int) {
                                lemma_feasible_grows(es, n, q as int, lb, budget as int);
                            }
                        } else {
                            let j = choose|j: int|
                                0 <= j < unique_weights@.len() && unique_weights@[j] == q;
                            unique_weights@.lemma_filter_contains(is_between(lb, ub), j);
                        }
                    }
                }
            }
            return (None, 0, 0);
        }
        let ghost window = l@;
        let median_unique = QuickSelect::find_median_f64(&mut l);
        proof {
            lemma_filter_no_duplicates(
                unique_weights@,
                is_between(lower_bound as int, upper_bound as int),
            );
            lemma_median_has_greater(window);
            let j = choose|j: int| 0 <= j < window.len() && window[j] == median_unique;
            unique_weights@.lemma_filter_pred(is_between(lower_bound as int, upper_bound as int), j);
            assert(unique_weights@.contains(window[j]));
        }
        let mut graph_below_w = graph.smaller_or_eq_than(median_unique);
        let ghost sub = graph_below_w.edges@;
        proof {
            lemma_filter_fits(graph.edges@, weight_at_most(median_unique as int), graph.order());
            lemma_sorted_same_edges(sub, CalculationType::Cost);
        }
        let ghost m = median_unique as int;
        proof {
            if placed {
                lemma_spans_grows(es, n, lb, m);
            }
        }
        let (op_min_cost_st, cost, bottleneck_min_cost) = graph_below_w.mst(CalculationType::Cost);
        let st = match op_min_cost_st {
            Some(st) => st,
            None => {
                return (None, 0, 0);
            },
        };
        proof {
            lemma_light_part(es, m);
            lemma_greedy_forest(graph_below_w.edges@);
            assert forall|i: int| 0 <= i < st.edges@.len() implies (#[trigger] st.edges@[i]).weight
                <= m by {
                assert(graph_below_w.edges@.contains(st.edges@[i]));
                let a = choose|a: int|
                    0 <= a < graph_below_w.edges@.len() && graph_below_w.edges@[a] == st.edges@[i];
                assert(sub.contains(graph_below_w.edges@[a]));
            }
            lemma_edges_within_trans(st.edges@, graph_below_w.edges@, sub);
            lemma_edges_within_trans(st.edges@, sub, graph.edges@);
            lemma_edges_within_trans(graph_below_w.edges@, sub, graph.edges@);
            if all_negative(graph.edges@) {
                lemma_all_negative_within(sub, graph.edges@);
                lemma_all_negative_within(graph_below_w.edges@, sub);
            }
        }
        if cost > budget as i128 {
            let disjoint_graph = graph.bigger_than(median_unique);
            let new_union_edges = Util::union_edges(disjoint_graph.edges(), st.edges());
            proof {
                lemma_filter_fits(graph.edges@, weight_above(median_unique as int), graph.order());
                lemma_concat_within(disjoint_graph.edges@, st.edges@, graph.edges@);
                lemma_first_occurrences_within(disjoint_graph.edges@ + st.edges@);
                lemma_edges_within_trans(
                    new_union_edges@,
                    disjoint_graph.edges@ + st.edges@,
                    graph.edges@,
                );
                lemma_within_fits(new_union_edges@, graph.edges@, graph.order());
                lemma_window_shrinks(
                    unique_weights@,
                    lower_bound as int,
                    upper_bound as int,
                    median_unique as int,
                    upper_bound as int,
                    median_unique,
                );
                if placed {
                    assert(new_union_edges@ == replaced(es, m));
                    lemma_replaced_spans(es, n, m);
                    if feasible(new_union_edges@, n, m, budget as int) {
                        lemma_more_edges_allow_more(new_union_edges@, es, n, m, budget as int);
                    }
                    assert forall|i: int|
                        0 <= i < new_union_edges@.len() && m < new_union_edges@[i].weight
                            <= ub implies unique_weights@.contains(
                        (#[trigger] new_union_edges@[i]).weight,
                    ) by {
                        assert(es.contains(new_union_edges@[i]));
                        let x = choose|x: int| 0 <= x < es.len() && es[x] == new_union_edges@[i];
                        assert(unique_weights@.contains(es[x].weight));
                    }
                    assert(is_window(new_union_edges@, n, budget as int, m, ub, unique_weights@));
                }
            }
            let mut narrowed = MutableGraph::new(graph.nodes_copy(), new_union_edges);
            let r = Self::recursion(&mut narrowed, unique_weights, budget, median_unique, upper_bound);
            proof {
                if placed {
                    assert forall|q: int| m < q implies #[trigger] same_cheapest_at(
                        narrowed.edges@,
                        es,
                        n,
                        q,
                    ) by {
                        lemma_replacement_keeps_cheapest(es, n, m, q);
                    }
                    lemma_window_answer_above(
                        narrowed.edges@,
                        es,
                        n,
                        budget as int,
                        m,
                        ub,
                        unique_weights@,
                        r,
                    );
                }
                if r.0 is Some {
                    if all_negative(graph.edges@) {
                        lemma_all_negative_within(narrowed.edges@, graph.edges@);
                    }
                    lemma_solution_within(
                        narrowed.edges@,
                        graph.edges@,
                        graph.nodes@,
                        budget as int,
                        r.0->0,
                        r.1 as int,
                        r.2 as int,
                    );
                }
            }
            return r;
        }
        if l.len() == 1 || l.len() == 2 {
            proof {
                if placed {
                    lemma_median_is_least(window);
                    assert forall|q: i64| #[trigger]
                        unique_weights@.contains(q) && q < median_unique implies !feasible(
                        es,
                        n,
                        q as int,
                        budget as int,
                    ) by {
                        if q <= lb {
                            if feasible(es, n, q as int, budget as int) {
                                lemma_feasible_grows(es, n, q as int, lb, budget as int);
                            }
                        } else {
                            let j = choose|j: int|
                                0 <= j < unique_weights@.len() && unique_weights@[j] == q;
                            unique_weights@.lemma_filter_contains(is_between(lb, ub), j);
                            let a = choose|a: int| 0 <= a < window.len() && window[a] == q;
                            assert(crate::algorithms::quick_select::median_of(window) <= window[a]);
                        }
                    }
                }
            }
            return (Some(st), cost, bottleneck_min_cost);
        }
        proof {
            if placed {
                let probed = graph_below_w.edges@;
                assert forall|i: int| 0 <= i < es.len() && es[i].weight <= m implies probed.contains(
                    #[trigger] es[i],
                ) by {
                    assert(sub.contains(es[i]));
                    let a = choose|a: int| 0 <= a < sub.len() && sub[a] == es[i];
                    assert(probed.contains(sub[a]));
                }
                if feasible(probed, n, lb, budget as int) {
                    lemma_more_edges_allow_more(probed, es, n, lb, budget as int);
                }
                lemma_light_part(es, lb);
                lemma_light_part(probed, lb);
                assert(edges_within(es.filter(weight_at_most(lb)), probed.filter(weight_at_most(lb)))) by {
                    assert forall|i: int|
                        0 <= i < es.filter(weight_at_most(lb)).len() implies probed.filter(
                        weight_at_most(lb),
                    ).contains(#[trigger] es.filter(weight_at_most(lb))[i]) by {
                        let e = es.filter(weight_at_most(lb))[i];
                        assert(es.contains(e));
                        let a = choose|a: int| 0 <= a < es.len() && es[a] == e;
                        assert(probed.contains(es[a]));
                        let b = choose|b: int| 0 <= b < probed.len() && probed[b] == e;
                        assert(probed.filter(weight_at_most(lb)).contains(probed[b]));
                    }
                }
                crate::algorithms::min_sum_spanning_tree::kruskal::lemma_ends_contained(
                    es.filter(weight_at_most(lb)),
                    probed.filter(weight_at_most(lb)),
                );
                crate::datastructures::graph::connectivity::lemma_contained_spans(
                    ends_of(es.filter(weight_at_most(lb))),
                    ends_of(probed.filter(weight_at_most(lb))),
                    n,
                );
                assert forall|i: int|
                    0 <= i < probed.len() && lb < probed[i].weight <= m implies unique_weights@.contains(
                    (#[trigger] probed[i]).weight,
                ) by {
                    assert(es.contains(probed[i]));
                    let x = choose|x: int| 0 <= x < es.len() && es[x] == probed[i];
                    assert(unique_weights@.contains(es[x].weight));
                }
                assert(is_window(probed, n, budget as int, lb, m, unique_weights@));
            }
            let x = choose|x: i64| window.contains(x) && x > median_unique;
            let j = choose|j: int| 0 <= j < window.len() && window[j] == x;
            unique_weights@.lemma_filter_pred(is_between(lower_bound as int, upper_bound as int), j);
            assert(unique_weights@.contains(window[j]));
            lemma_window_shrinks(
                unique_weights@,
                lower_bound as int,
                upper_bound as int,
                lower_bound as int,
                median_unique as int,
                x,
            );
        }
        let ghost probed = graph_below_w.edges@;
        let r = Self::recursion(&mut graph_below_w, unique_weights, budget, lower_bound, median_unique);
        proof {
            if placed {
                assert forall|i: int| 0 <= i < es.len() && es[i].weight <= m implies probed.contains(
                    #[trigger] es[i],
                ) by {
                    assert(sub.contains(es[i]));
                    let a = choose|a: int| 0 <= a < sub.len() && sub[a] == es[i];
                    assert(probed.contains(sub[a]));
                }
                assert forall|q: int| q <= m implies #[trigger] same_cheapest_at(probed, es, n, q) by {
                    lemma_light_part_keeps_cheapest(probed, es, n, m, q);
                }
                lemma_window_answer_below(
                    probed,
                    es,
                    n,
                    budget as int,
                    median_unique,
                    ub,
                    unique_weights@,
                    r,
                );
            }
            if r.0 is Some {
                lemma_solution_within(
                    probed,
                    graph.edges@,
                    graph.nodes@,
                    budget as int,
                    r.0->0,
                    r.1 as int,
                    r.2 as int,
                );
            }
        }
        r
    }

    /// The search with two probes in each round, under its short name.
    pub fn dbs(graph: &mut MutableGraph, unique_weights: &Vec<i64>, budget: i64) -> (r: (
        Option<MutableGraph>,
        i128,
        i64,
    ))
        requires
            old(graph).wf(),
        ensures
            final(graph).wf(),
            final(graph).nodes@ == old(graph).nodes@,
            edges_within(final(graph).edges@, old(graph).edges@),
            match r.0 {
                Some(t) => is_solution(
                    old(graph).edges@,
                    old(graph).nodes@,
                    budget as int,
                    t,
                    r.1 as int,
                    r.2 as int,
                ),
                None => {
                    &&& r.1 == 0
                    &&& r.2 == 0
                    &&& final(graph).edges@ == old(graph).edges@
                    &&& unique_weights@.len() > 0 ==> !feasible(
                        old(graph).edges@,
                        old(graph).order(),
                        unique_weights@[unique_weights@.len() - 1] as int,
                        budget as int,
                    )
                },
            },
            all_negative(old(graph).edges@) && ascending(unique_weights@) && old(graph).order() >= 1
                ==> is_cheapest_at_first(
                old(graph).edges@,
                old(graph).nodes@,
                unique_weights@,
                budget as int,
                r,
            ),
    {
        Self::dual_bound_search(graph, unique_weights, budget)
    }

    /// Probes the middle pivot and, where that fails, the greatest pivot left. A probe
    /// that finds a tree drops the edges above the tree's bottleneck from the graph,
    /// unless the search is over.
    pub fn dual_bound_search(
        duplicated_graph: &mut MutableGraph,
        unique_weights: &Vec<i64>,
        budget: i64,
    ) -> (r: (Option<MutableGraph>, i128, i64))
        requires
            old(duplicated_graph).wf(),
        ensures
            final(duplicated_graph).wf(),
            final(duplicated_graph).nodes@ == old(duplicated_graph).nodes@,
            edges_within(final(duplicated_graph).edges@, old(duplicated_graph).edges@),
            match r.0 {
                Some(t) => is_solution(
                    old(duplicated_graph).edges@,
                    old(duplicated_graph).nodes@,
                    budget as int,
                    t,
                    r.1 as int,
                    r.2 as int,
                ),
                None => {
                    &&& r.1 == 0
                    &&& r.2 == 0
                    &&& final(duplicated_graph).edges@ == old(duplicated_graph).edges@
                    &&& unique_weights@.len() > 0 ==> !feasible(
                        old(duplicated_graph).edges@,
                        old(duplicated_graph).order(),
                        unique_weights@[unique_weights@.len() - 1] as int,
                        budget as int,
                    )
                },
            },
            all_negative(old(duplicated_graph).edges@) && ascending(unique_weights@) && old(
                duplicated_graph,
            ).order() >= 1 ==> is_cheapest_at_first(
                old(duplicated_graph).edges@,
                old(duplicated_graph).nodes@,
                unique_weights@,
                budget as int,
                r,
            ),
    {
        let ghost exact = all_negative(duplicated_graph.edges@) && ascending(unique_weights@)
            && duplicated_graph.order() >= 1;
        let mut max: usize = unique_weights.len();
        let mut min: usize = 0;
        let mut final_st: Option<MutableGraph> = None;
        let mut cost: i128 = 0;
        let mut bottleneck: i64 = 0;
        let ghost start = duplicated_graph.edges@;
        while min < max
            invariant
                min <= max <= unique_weights@.len(),
                duplicated_graph.wf(),
                duplicated_graph.nodes@ == old(duplicated_graph).nodes@,
                start == old(duplicated_graph).edges@,
                edges_within(duplicated_graph.edges@, start),
                match final_st {
                    Some(t) => is_solution(
                        start,
                        duplicated_graph.nodes@,
                        budget as int,
                        t,
                        cost as int,
                        bottleneck as int,
                    ),
                    None => {
                        &&& cost == 0
                        &&& bottleneck == 0
                        &&& duplicated_graph.edges@ == start
                        &&& unique_weights@.len() > 0 && (min > 0 || max < unique_weights@.len())
                            ==> !feasible(
                            start,
                            duplicated_graph.order(),
                            unique_weights@[unique_weights@.len() - 1] as int,
                            budget as int,
                        )
                    },
                },
                exact == (all_negative(start) && ascending(unique_weights@) && duplicated_graph.order()
                    >= 1),
                forall|i: int| 0 <= i < start.len() ==> (#[trigger] start[i]).fits(duplicated_graph.order()),
                exact ==> same_feasibility(
                    duplicated_graph.edges@,
                    start,
                    duplicated_graph.order(),
                    budget as int,
                ),
                exact ==> forall|j: int|
                    0 <= j < min ==> !feasible(
                        start,
                        duplicated_graph.order(),
                        #[trigger] unique_weights@[j] as int,
                        budget as int,
                    ),
                exact ==> match final_st {
                    Some(t) => {
                        &&& max < unique_weights@.len()
                        &&& feasible(
                            start,
                            duplicated_graph.order(),
                            unique_weights@[max as int] as int,
                            budget as int,
                        )
                        &&& forall|i: int|
                            0 <= i < t.edges@.len() ==> (#[trigger] t.edges@[i]).weight
                                <= unique_weights@[max as int]
                        &&& cost == forest_sum(
                            start.filter(weight_at_most(unique_weights@[max as int] as int)),
                            CalculationType::Cost,
                        )
                        &&& forall|q: int|
                            q <= unique_weights@[max as int] ==> #[trigger] same_cheapest_at(
                                duplicated_graph.edges@,
                                start,
                                duplicated_graph.order(),
                                q,
                            )
                    },
                    None => max == unique_weights@.len(),
                },
            decreases max - min,
        {
            let pivot_a = min + (max - min) / 2;
            let pivot_b = max - 1;
            let pivot_a_weight = unique_weights[pivot_a];
            let pivot_b_weight = unique_weights[pivot_b];
            let ghost current = duplicated_graph.edges@;
            match Util::check_pivot(duplicated_graph, pivot_a_weight, budget) {
                PivotResult::Feasible(st) => {
                    proof {
                        if exact {
                            lemma_all_negative_within(current, start);
                            lemma_probe_step(
                                current,
                                start,
                                duplicated_graph.nodes@,
                                pivot_a_weight as int,
                                budget as int,
                                st.0,
                                st.1 as int,
                                st.2 as int,
                            );
                            lemma_probe_step_cheapest(
                                current,
                                start,
                                duplicated_graph.nodes@,
                                pivot_a_weight as int,
                                budget as int,
                                st.0,
                                st.1 as int,
                                st.2 as int,
                            );
                        }
                        Self::lemma_probe_on_part(
                            current,
                            start,
                            duplicated_graph.nodes@,
                            pivot_a_weight as int,
                            budget as int,
                            st.0,
                            st.1 as int,
                            st.2 as int,
                        );
                    }
                    final_st = Some(st.0);
                    cost = st.1;
                    bottleneck = st.2;
                    max = pivot_a;
                    if min < max {
                        let kept = duplicated_graph.smaller_or_eq_than(bottleneck);
                        *duplicated_graph = kept;
                    }
                },
                PivotResult::Infeasible => {
                    proof {
                        if exact {
                            lemma_infeasible_below(
                                start,
                                duplicated_graph.order(),
                                unique_weights@,
                                pivot_a as int,
                                budget as int,
                            );
                        }
                    }
                    match Util::check_pivot(duplicated_graph, pivot_b_weight, budget) {
                        PivotResult::Feasible(st) => {
                            proof {
                                if exact {
                                    lemma_all_negative_within(current, start);
                                    lemma_probe_step(
                                        current,
                                        start,
                                        duplicated_graph.nodes@,
                                        pivot_b_weight as int,
                                        budget as int,
                                        st.0,
                                        st.1 as int,
                                        st.2 as int,
                                    );
                                    lemma_probe_step_cheapest(
                                        current,
                                        start,
                                        duplicated_graph.nodes@,
                                        pivot_b_weight as int,
                                        budget as int,
                                        st.0,
                                        st.1 as int,
                                        st.2 as int,
                                    );
                                }
                                Self::lemma_probe_on_part(
                                    current,
                                    start,
                                    duplicated_graph.nodes@,
                                    pivot_b_weight as int,
                                    budget as int,
                                    st.0,
                                    st.1 as int,
                                    st.2 as int,
                                );
                            }
                            final_st = Some(st.0);
                            cost = st.1;
                            bottleneck = st.2;
                            min = pivot_a + 1;
                            max = pivot_b;
                            if min < max {
                                let kept = duplicated_graph.smaller_or_eq_than(bottleneck);
                                *duplicated_graph = kept;
                            }
                        },
                        PivotResult::Infeasible => {
                            proof {
                                if exact {
                                    lemma_infeasible_below(
                                        start,
                                        duplicated_graph.order(),
                                        unique_weights@,
                                        pivot_b as int,
                                        budget as int,
                                    );
                                }
                            }
                            min = pivot_b + 1;
                        },
                    }
                },
            }
        }
        (final_st, cost, bottleneck)
    }

    /// The tree of a probe of a part of a graph solves the problem on the graph, and the
    /// edges of the part up to any weight are edges of the graph.
    proof fn lemma_probe_on_part(
        current: Seq<Edge>,
        start: Seq<Edge>,
        nodes: Seq<crate::datastructures::graph::node::Node>,
        pivot: int,
        budget: int,
        t: MutableGraph,
        cost: int,
        bottleneck: int,
    )
        requires
            edges_within(current, start),
            forall|i: int| 0 <= i < current.len() ==> (#[trigger] current[i]).fits(nodes.len()),
            feasible(current, nodes.len(), pivot, budget),
            is_probe_result(current, nodes, pivot, t, cost, bottleneck),
        ensures
            is_solution(start, nodes, budget, t, cost, bottleneck),
            edges_within(current.filter(weight_at_most(bottleneck)), start),
            forall|i: int|
                0 <= i < current.filter(weight_at_most(bottleneck)).len() ==> (
                #[trigger] current.filter(weight_at_most(bottleneck))[i]).fits(nodes.len()),
    {
        lemma_probe_is_solution(current, nodes, pivot, budget, t, cost, bottleneck);
        if all_negative(start) {
            lemma_all_negative_within(current, start);
        }
        lemma_solution_within(current, start, nodes, budget, t, cost, bottleneck);
        lemma_filter_fits(current, weight_at_most(bottleneck), nodes.len());
        lemma_edges_within_trans(current.filter(weight_at_most(bottleneck)), current, start);
    }
}

} // verus!
