use crate::algorithms::bottleneck::{lemma_max_weight_attained, lemma_max_weight_bounds};
use crate::algorithms::constrained_bottleneck_spanning_tree::berman::candidates;
use crate::algorithms::constrained_bottleneck_spanning_tree::feasibility::{
    is_best_answer, is_cheapest_at_least, is_feasible_tree, is_inverted,
    lemma_bottleneck_is_a_weight, lemma_cheapest_transfer, lemma_closed_in_is_best,
    lemma_feasible_grows, lemma_light_part, lemma_light_part_keeps_cheapest,
    lemma_probe_answer_is_answer, lemma_replaced_spans, lemma_replacement_keeps_cheapest,
    lemma_same_cheapest_cost, lemma_same_cheapest_trans, lemma_same_edges_same_cheapest,
    lemma_spans_grows, lemma_tree_costs_less, lemma_tree_in_light_part, lemma_tree_makes_feasible,
    replaced, same_cheapest_at,
};
use crate::algorithms::min_sum_spanning_tree::cheapest::lemma_forest_is_cheapest;
use crate::algorithms::min_sum_spanning_tree::kruskal::{
    forest_sum, lemma_greedy_forest, lemma_sorted_keeps_graph, lemma_sorted_same_edges,
    sorted_edges, CalculationType,
};
use crate::algorithms::quick_select::{median_of, median_position, number_leq, QuickSelect};
use crate::algorithms::util::{
    all_negative, edges_within, feasible, is_between, is_solution, is_trivial, is_trivial_answer,
    lemma_all_negative_within, lemma_concat_within, lemma_edges_within_trans, lemma_filter_fits,
    lemma_first_occurrences_within, lemma_solution_within, lemma_within_fits, Util,
};
use crate::datastructures::graph::connectivity::spans;
use crate::datastructures::graph::edge::{cost_sum, ends_of, max_weight, Edge, NEG_INFINITY};
use crate::datastructures::graph::mutable_graph::{weight_above, weight_at_most, MutableGraph};
use crate::datastructures::graph::node::Node;
use vstd::prelude::*;

verus! {

/// Where the search stands after its bounds are found.
pub enum Bounds {
    /// The answer is known already.
    Done((Option<MutableGraph>, i128, i64)),
    /// The answer lies between two bottlenecks: above `lower_bound`, and `upper_bound` at
    /// most, which `best` reaches. `union_edges` are the edges to search in.
    Open {
        lower_bound: i64,
        upper_bound: i64,
        union_edges: Vec<Edge>,
        unique_weights: Vec<i64>,
        best: (MutableGraph, i128, i64),
    },
}

/// The search has the answer trapped: above `lower_bound`, which allows no tree, and
/// `upper_bound` at most, which the tree `best` reaches; the edges `union_edges` allow
/// in between what the graph allows, they span up to the lower bound, and the weights
/// `unique_weights` hold every weight of the graph in between.
pub open spec fn is_trapped(
    es: Seq<Edge>,
    nodes: Seq<Node>,
    budget: int,
    lower_bound: int,
    upper_bound: int,
    union_edges: Seq<Edge>,
    unique_weights: Seq<i64>,
    best: MutableGraph,
) -> bool {
    &&& nodes.len() >= 2
    &&& is_inverted(es)
    &&& forall|q: int|
        lower_bound < q <= upper_bound ==> #[trigger] same_cheapest_at(union_edges, es, nodes.len(), q)
    &&& !feasible(es, nodes.len(), lower_bound, budget)
    &&& forall|i: int| 0 <= i < best.edges@.len() ==> (#[trigger] best.edges@[i]).weight <= upper_bound
    &&& spans(ends_of(union_edges.filter(weight_at_most(lower_bound))), nodes.len())
    &&& forall|i: int|
        0 <= i < es.len() && lower_bound < es[i].weight <= upper_bound ==> unique_weights.contains(
            (#[trigger] es[i]).weight,
        )
}

/// The median of one or two numbers is the least of them.
pub proof fn lemma_median_is_least(l: Seq<i64>)
    requires
        1 <= l.len() <= 2,
    ensures
        forall|i: int| 0 <= i < l.len() ==> median_of(l) <= #[trigger] l[i],
{
    broadcast use vstd::seq_lib::group_to_multiset_ensures;

    crate::algorithms::quick_select::lemma_number_leq_total();
    l.lemma_sort_by_ensures(number_leq());
    let srt = l.sort_by(number_leq());
    vstd::seq_lib::to_multiset_len(l);
    vstd::seq_lib::to_multiset_len(srt);
    assert forall|i: int| 0 <= i < l.len() implies median_of(l) <= #[trigger] l[i] by {
        assert(l.contains(l[i]));
        assert(l.to_multiset().count(l[i]) > 0);
        assert(srt.to_multiset().count(l[i]) > 0);
        assert(srt.contains(l[i]));
        let j = choose|j: int| 0 <= j < srt.len() && srt[j] == l[i];
        if j > 0 {
            assert(number_leq()(srt[0], srt[j]));
        }
    }
}

/// A filter of numbers that do not repeat holds numbers that do not repeat.
pub proof fn lemma_filter_no_duplicates(s: Seq<i64>, pred: spec_fn(i64) -> bool)
    requires
        s.no_duplicates(),
    ensures
        s.filter(pred).no_duplicates(),
        forall|i: int| 0 <= i < s.filter(pred).len() ==> s.contains(#[trigger] s.filter(pred)[i]),
    decreases s.len(),
{
    reveal(Seq::filter);
    let f = s.filter(pred);
    if s.len() > 0 {
        let rest = s.drop_last();
        lemma_filter_no_duplicates(rest, pred);
        let g = rest.filter(pred);
        assert forall|i: int| 0 <= i < f.len() implies s.contains(#[trigger] f[i]) by {
            if i < g.len() {
                assert(rest.contains(g[i]));
                let j = choose|j: int| 0 <= j < rest.len() && rest[j] == g[i];
                assert(s[j] == g[i]);
            } else {
                assert(s[s.len() - 1] == f[i]);
            }
        }
        if pred(s.last()) {
            assert forall|i: int, j: int| 0 <= i < f.len() && 0 <= j < f.len() && i != j implies f[i]
                != f[j] by {
                if i < g.len() && j < g.len() {
                } else {
                    let other = if i < g.len() {
                        i
                    } else {
                        j
                    };
                    assert(rest.contains(g[other]));
                    let m = choose|m: int| 0 <= m < rest.len() && rest[m] == g[other];
                    assert(s[m] != s[s.len() - 1]);
                }
            }
        }
    }
}

/// A narrower window that leaves a number of the list out holds fewer numbers of the
/// list.
pub proof fn lemma_window_shrinks(s: Seq<i64>, lo: int, hi: int, lo2: int, hi2: int, x: i64)
    requires
        lo <= lo2,
        hi2 <= hi,
        s.contains(x),
        lo < x <= hi,
        !(lo2 < x <= hi2),
    ensures
        s.filter(is_between(lo2, hi2)).len() < s.filter(is_between(lo, hi)).len(),
    decreases s.len(),
{
    reveal(Seq::filter);
    if s.len() > 0 {
        let rest = s.drop_last();
        if rest.contains(x) {
            lemma_window_shrinks(rest, lo, hi, lo2, hi2, x);
        } else {
            let j = choose|j: int| 0 <= j < s.len() && s[j] == x;
            if j < s.len() - 1 {
                assert(rest[j] == x);
            }
            assert(j == s.len() - 1);
            lemma_window_within(rest, lo, hi, lo2, hi2);
        }
    }
}

/// A narrower window holds no more numbers of the list.
pub proof fn lemma_window_within(s: Seq<i64>, lo: int, hi: int, lo2: int, hi2: int)
    requires
        lo <= lo2,
        hi2 <= hi,
    ensures
        s.filter(is_between(lo2, hi2)).len() <= s.filter(is_between(lo, hi)).len(),
    decreases s.len(),
{
    reveal(Seq::filter);
    if s.len() > 0 {
        lemma_window_within(s.drop_last(), lo, hi, lo2, hi2);
    }
}

/// The median of numbers that do not repeat is one of them, and where there are two
/// or more, one of them is greater.
pub proof fn lemma_median_has_greater(l: Seq<i64>)
    requires
        l.no_duplicates(),
        l.len() > 0,
    ensures
        l.contains(median_of(l)),
        l.len() >= 2 ==> exists|x: i64| l.contains(x) && x > median_of(l),
{
    broadcast use vstd::seq_lib::group_to_multiset_ensures;

    crate::algorithms::quick_select::lemma_number_leq_total();
    l.lemma_sort_by_ensures(number_leq());
    let srt = l.sort_by(number_leq());
    vstd::seq_lib::to_multiset_len(l);
    vstd::seq_lib::to_multiset_len(srt);
    let pos = median_position(l.len());
    assert(srt.contains(srt[pos]));
    if l.len() >= 2 {
        let top = l.len() - 1;
        assert(srt.contains(srt[top]));
        assert(l.contains(srt[top]));
        l.lemma_multiset_has_no_duplicates();
        srt.lemma_multiset_has_no_duplicates_conv();
        assert(number_leq()(srt[pos], srt[top]));
        assert(srt[pos] != srt[top]);
    }
}

/// Median refinement: the answer is trapped between the least bottleneck of all
/// spanning trees and the bottleneck of the cheapest one, and the window is halved at
/// the median of the weights in it.
pub struct Punnen();

impl Punnen {
    /// A spanning tree within the budget, with its cost and bottleneck, or no solution
    /// with cost and bottleneck 0. Where the graph is not connected, and where its
    /// cheapest spanning tree is not within the budget although some edge must be left
    /// out, there is no solution.
    pub fn run(graph: &mut MutableGraph, budget: i64) -> (r: (Option<MutableGraph>, i128, i64))
        requires
            old(graph).wf(),
        ensures
            final(graph).wf(),
            final(graph).nodes == old(graph).nodes,
            final(graph).edges@ == old(graph).edges@ || final(graph).edges@ == sorted_edges(
                old(graph).edges@,
                CalculationType::Cost,
            ),
            is_trivial(*old(graph)) ==> is_trivial_answer(*old(graph), r),
            !is_trivial(*old(graph)) ==> match r.0 {
                Some(t) => is_solution(
                    old(graph).edges@,
                    old(graph).nodes@,
                    budget as int,
                    t,
                    r.1 as int,
                    r.2 as int,
                ),
                None => r.1 == 0 && r.2 == 0,
            },
            !is_trivial(*old(graph)) && !spans(ends_of(old(graph).edges@), old(graph).order())
                ==> r.0 is None,
            !is_trivial(*old(graph)) && cost_sum(old(graph).edges@) > budget && forest_sum(
                old(graph).edges@,
                CalculationType::Cost,
            ) > budget ==> r.0 is None,
            !is_trivial(*old(graph)) && cost_sum(old(graph).edges@) <= budget && spans(
                ends_of(old(graph).edges@),
                old(graph).order(),
            ) ==> r.0 is Some,
            old(graph).order() >= 2 && all_negative(old(graph).edges@) && is_inverted(
                old(graph).edges@,
            ) ==> is_best_answer(old(graph).edges@, old(graph).nodes@, budget as int, r),
            old(graph).order() >= 2 && all_negative(old(graph).edges@) && is_inverted(
                old(graph).edges@,
            ) && cost_sum(old(graph).edges@) > budget ==> is_cheapest_at_least(
                old(graph).edges@,
                old(graph).nodes@,
                candidates(old(graph).edges@),
                budget as int,
                r,
            ),
    {
        let ghost before = graph.edges@;
        let ghost exact = graph.order() >= 2 && all_negative(graph.edges@) && is_inverted(graph.edges@);
        match Self::bounds(graph, budget) {
            Bounds::Done(r) => r,
            Bounds::Open { lower_bound, upper_bound, union_edges, unique_weights, best } => {
                let r = Self::recursive_find(
                    graph,
                    budget,
                    lower_bound,
                    upper_bound,
                    union_edges,
                    &unique_weights,
                    best,
                );
                proof {
                    lemma_sorted_same_edges(before, CalculationType::Cost);
                    if r.0 is Some {
                        if all_negative(before) {
                            lemma_all_negative_within(graph.edges@, before);
                        }
                        lemma_solution_within(
                            graph.edges@,
                            before,
                            graph.nodes@,
                            budget as int,
                            r.0->0,
                            r.1 as int,
                            r.2 as int,
                        );
                    }
                    if exact {
                        let sorted = graph.edges@;
                        let n = graph.order();
                        assert(is_inverted(sorted)) by {
                            assert forall|i: int| 0 <= i < sorted.len() implies NEG_INFINITY < (
                            #[trigger] sorted[i]).weight <= 0 by {
                                assert(before.contains(sorted[i]));
                            }
                        }
                        Self::lemma_weights_cover(sorted, n, budget as int, unique_weights@);
                        lemma_probe_answer_is_answer(sorted, graph.nodes@, budget as int, r);
                        assert forall|q: int| same_cheapest_at(sorted, before, n, q) by {
                            lemma_same_edges_same_cheapest(sorted, before, n, q);
                        }
                        lemma_cheapest_transfer(
                            sorted,
                            before,
                            graph.nodes@,
                            unique_weights@.to_set(),
                            budget as int,
                            r,
                        );
                        Self::lemma_same_candidates(sorted, before);
                        lemma_closed_in_is_best(
                            sorted,
                            graph.nodes@,
                            unique_weights@.to_set(),
                            budget as int,
                            r,
                        );
                        // the sorted edges are the edges of the graph
                        if r.0 is Some {
                            assert forall|t: Seq<Edge>| #[trigger]
                                is_feasible_tree(before, n, budget as int, t) implies max_weight(
                                r.0->0.edges@,
                            ) <= max_weight(t) by {
                                lemma_edges_within_trans(t, before, sorted);
                                assert(is_feasible_tree(sorted, n, budget as int, t));
                            }
                        } else {
                            assert forall|t: Seq<Edge>| !#[trigger] is_feasible_tree(
                                before,
                                n,
                                budget as int,
                                t,
                            ) by {
                                if is_feasible_tree(before, n, budget as int, t) {
                                    lemma_edges_within_trans(t, before, sorted);
                                    assert(is_feasible_tree(sorted, n, budget as int, t));
                                }
                            }
                        }
                    }
                }
                r
            },
        }
    }

    /// Graphs with the same edges have the same pivots.
    proof fn lemma_same_candidates(a: Seq<Edge>, b: Seq<Edge>)
        requires
            edges_within(a, b),
            edges_within(b, a),
        ensures
            candidates(a) == candidates(b),
    {
        assert forall|w: i64| candidates(a).contains(w) <==> candidates(b).contains(w) by {
            if candidates(a).contains(w) {
                let i = choose|i: int| 0 <= i < a.len() && (#[trigger] a[i]).weight == w;
                assert(b.contains(a[i]));
                let j = choose|j: int| 0 <= j < b.len() && b[j] == a[i];
                assert(b[j].weight == w);
            }
            if candidates(b).contains(w) {
                let i = choose|i: int| 0 <= i < b.len() && (#[trigger] b[i]).weight == w;
                assert(a.contains(b[i]));
                let j = choose|j: int| 0 <= j < a.len() && a[j] == b[i];
                assert(a[j].weight == w);
            }
        }
        assert(candidates(a) =~= candidates(b));
    }

    /// The distinct weights of inverted edges hold the largest weight of every spanning
    /// tree of two nodes or more.
    proof fn lemma_weights_cover(es: Seq<Edge>, n: nat, budget: int, ws: Seq<i64>)
        requires
            is_inverted(es),
            n >= 2,
            ws.to_set() == crate::algorithms::util::weights_between(es, NEG_INFINITY as int, 0),
        ensures
            forall|t: Seq<Edge>| #[trigger]
                is_feasible_tree(es, n, budget, t) ==> exists|q: i64| #[trigger]
                    ws.to_set().contains(q) && max_weight(t) <= q && (t.len() > 0 ==> q == max_weight(
                        t,
                    )),
    {
        assert forall|t: Seq<Edge>| #[trigger] is_feasible_tree(es, n, budget, t) implies exists|
            q: i64,
        | #[trigger]
            ws.to_set().contains(q) && max_weight(t) <= q && (t.len() > 0 ==> q == max_weight(t)) by {
            lemma_bottleneck_is_a_weight(es, t);
            let q = max_weight(t) as i64;
            assert(ws.to_set().contains(q));
        }
    }

    /// Halves the window above `lower_bound` and up to `upper_bound` at the median of the
    /// weights in it, and probes the edges `union_edges` that weigh the median at most.
    /// Where they hold no spanning tree, there is no solution. Where their cheapest
    /// spanning tree is not within the budget, the search goes on above the median, in
    /// that tree and the edges above the median. Where it is, it is the answer if the
    /// window held one or two weights, and else the search goes on in the probed edges
    /// up to the median. An empty window leaves `best`.
    pub fn recursive_find(
        graph: &MutableGraph,
        budget: i64,
        lower_bound: i64,
        upper_bound: i64,
        union_edges: Vec<Edge>,
        unique_weights: &Vec<i64>,
        best: (MutableGraph, i128, i64),
    ) -> (r: (Option<MutableGraph>, i128, i64))
        requires
            graph.wf(),
            edges_within(union_edges@, graph.edges@),
            unique_weights@.no_duplicates(),
            is_solution(
                graph.edges@,
                graph.nodes@,
                budget as int,
                best.0,
                best.1 as int,
                best.2 as int,
            ),
        ensures
            match r.0 {
                Some(t) => is_solution(
                    graph.edges@,
                    graph.nodes@,
                    budget as int,
                    t,
                    r.1 as int,
                    r.2 as int,
                ),
                None => r.1 == 0 && r.2 == 0,
            },
            is_trapped(
                graph.edges@,
                graph.nodes@,
                budget as int,
                lower_bound as int,
                upper_bound as int,
                union_edges@,
                unique_weights@,
                best.0,
            ) ==> is_cheapest_at_least(
                graph.edges@,
                graph.nodes@,
                unique_weights@.to_set(),
                budget as int,
                r,
            ),
        decreases unique_weights@.filter(is_between(lower_bound as int, upper_bound as int)).len(),
    {
        let ghost es = graph.edges@;
        let ghost n = graph.order();
        let ghost lb = lower_bound as int;
        let ghost ub = upper_bound as int;
        let ghost trapped = is_trapped(
            es,
            graph.nodes@,
            budget as int,
            lb,
            ub,
            union_edges@,
            unique_weights@,
            best.0,
        );
        let ghost union0 = union_edges@;
        let mut l = Util::relevant_slice(unique_weights, lower_bound, upper_bound);
        if l.len() == 0 {
            proof {
                if trapped {
                    // the bottleneck of `best` would be a weight in the window
                    let t = best.0.edges@;
                    assert(is_feasible_tree(es, n, budget as int, t));
                    lemma_bottleneck_is_a_weight(es, t);
                    lemma_max_weight_attained(t);
                    let i = choose|i: int| 0 <= i < t.len() && (#[trigger] t[i]).weight == max_weight(t);
                    let x = choose|x: int| 0 <= x < es.len() && (#[trigger] es[x]).weight == max_weight(t);
                    lemma_tree_makes_feasible(es, n, budget as int, t, max_weight(t));
                    if max_weight(t) <= lb {
                        lemma_feasible_grows(es, n, max_weight(t), lb, budget as int);
                    }
                    assert(unique_weights@.contains(es[x].weight));
                    let j = choose|j: int| 0 <= j < unique_weights@.len() && unique_weights@[j] == es[x].weight;
                    unique_weights@.lemma_filter_contains(is_between(lb, ub), j);
                    assert(false);
                }
            }
            return (Some(best.0), best.1, best.2);
        }
        let ghost window = l@;
        let median_unique = QuickSelect::find_median_f64(&mut l);
        proof {
            lemma_filter_no_duplicates(
                unique_weights@,
                is_between(lower_bound as int, upper_bound as int),
            );
            lemma_median_has_greater(window);
            let j = choose|j: int| 0 <= j < window.len() && window[j] == median_unique;
            unique_weights@.lemma_filter_pred(is_between(lower_bound as int, upper_bound as int), j);
            assert(unique_weights@.contains(window[j]));
            lemma_within_fits(union_edges@, graph.edges@, graph.order());
        }
        let graph_union = MutableGraph::new(graph.nodes_copy(), union_edges);
        let mut graph_below_w = graph_union.smaller_or_eq_than(median_unique);
        let ghost sub = graph_below_w.edges@;
        proof {
            lemma_filter_fits(graph_union.edges@, weight_at_most(median_unique as int), graph.order());
            lemma_sorted_same_edges(sub, CalculationType::Cost);
        }
        let ghost m = median_unique as int;
        proof {
            if trapped {
                lemma_spans_grows(union0, n, lb, m);
            }
        }
        let (op_min_cost_st, cost, bottleneck_min_cost) = graph_below_w.mst(CalculationType::Cost);
        let st = match op_min_cost_st {
            Some(st) => st,
            None => {
                return (None, 0, 0);
            },
        };
        proof {
            lemma_light_part(union0, m);
            assert forall|i: int| 0 <= i < st.edges@.len() implies (#[trigger] st.edges@[i]).weight
                <= m by {
                lemma_greedy_forest(graph_below_w.edges@);
                assert(graph_below_w.edges@.contains(st.edges@[i]));
                let a = choose|a: int|
                    0 <= a < graph_below_w.edges@.len() && graph_below_w.edges@[a] == st.edges@[i];
                assert(sub.contains(graph_below_w.edges@[a]));
            }
            lemma_greedy_forest(graph_below_w.edges@);
            assert(edges_within(st.edges@, graph_below_w.edges@));
            assert(edges_within(graph_below_w.edges@, sub));
            lemma_edges_within_trans(st.edges@, graph_below_w.edges@, sub);
            lemma_edges_within_trans(st.edges@, sub, graph_union.edges@);
            lemma_edges_within_trans(st.edges@, graph_union.edges@, graph.edges@);
            lemma_edges_within_trans(graph_below_w.edges@, sub, graph_union.edges@);
            lemma_edges_within_trans(graph_below_w.edges@, graph_union.edges@, graph.edges@);
            if all_negative(graph.edges@) {
                lemma_all_negative_within(graph_union.edges@, graph.edges@);
                lemma_all_negative_within(sub, graph_union.edges@);
                lemma_all_negative_within(graph_below_w.edges@, sub);
            }
        }
        if cost > budget as i128 {
            let disjoint_graph = graph_union.bigger_than(median_unique);
            let new_union_edges = Util::union_edges(disjoint_graph.edges(), st.edges());
            proof {
                lemma_filter_fits(
                    graph_union.edges@,
                    weight_above(median_unique as int),
                    graph.order(),
                );
                lemma_edges_within_trans(disjoint_graph.edges@, graph_union.edges@, graph.edges@);
                lemma_concat_within(disjoint_graph.edges@, st.edges@, graph.edges@);
                lemma_first_occurrences_within(disjoint_graph.edges@ + st.edges@);
                lemma_edges_within_trans(
                    new_union_edges@,
                    disjoint_graph.edges@ + st.edges@,
                    graph.edges@,
                );
                lemma_window_shrinks(
                    unique_weights@,
                    lower_bound as int,
                    upper_bound as int,
                    median_unique as int,
                    upper_bound as int,
                    median_unique,
                );
                if trapped {
                    assert(same_cheapest_at(union0, es, n, m));
                    assert(!feasible(union0, n, m, budget as int));
                    assert(new_union_edges@ == replaced(union0, m));
                    assert forall|q: int| m < q <= ub implies #[trigger] same_cheapest_at(
                        new_union_edges@,
                        es,
                        n,
                        q,
                    ) by {
                        lemma_replacement_keeps_cheapest(union0, n, m, q);
                        assert(same_cheapest_at(union0, es, n, q));
                        lemma_same_cheapest_trans(new_union_edges@, union0, es, n, q);
                    }
                    lemma_replaced_spans(union0, n, m);
                    assert(is_trapped(
                        es,
                        graph.nodes@,
                        budget as int,
                        m,
                        ub,
                        new_union_edges@,
                        unique_weights@,
                        best.0,
                    ));
                }
            }
            return Self::recursive_find(
                graph,
                budget,
                median_unique,
                upper_bound,
                new_union_edges,
                unique_weights,
                best,
            );
        }
        if l.len() == 1 || l.len() == 2 {
            proof {
                if trapped {
                    lemma_median_is_least(window);
                    let c = unique_weights@.to_set();
                    assert(c.contains(median_unique));
                    assert(same_cheapest_at(union0, es, n, m));
                    assert(feasible(union0, n, m, budget as int));
                    lemma_same_cheapest_cost(union0, es, n, m, budget as int);
                    assert forall|q: i64| #[trigger] c.contains(q) && q < median_unique implies !feasible(
                        es,
                        n,
                        q as int,
                        budget as int,
                    ) by {
                        if q <= lb {
                            if feasible(es, n, q as int, budget as int) {
                                lemma_feasible_grows(es, n, q as int, lb, budget as int);
                            }
                        } else {
                            assert(unique_weights@.contains(q));
                            let j = choose|j: int| 0 <= j < unique_weights@.len() && unique_weights@[j] == q;
                            unique_weights@.lemma_filter_contains(is_between(lb, ub), j);
                            let a = choose|a: int| 0 <= a < window.len() && window[a] == q;
                            assert(median_of(window) <= window[a]);
                        }
                    }
                }
            }
            return (Some(st), cost, bottleneck_min_cost);
        }
        proof {
            let x = choose|x: i64| window.contains(x) && x > median_unique;
            let j = choose|j: int| 0 <= j < window.len() && window[j] == x;
            unique_weights@.lemma_filter_pred(is_between(lower_bound as int, upper_bound as int), j);
            assert(unique_weights@.contains(window[j]));
            lemma_window_shrinks(
                unique_weights@,
                lower_bound as int,
                upper_bound as int,
                lower_bound as int,
                median_unique as int,
                x,
            );
            if trapped {
                let probed = graph_below_w.edges@;
                assert forall|i: int|
                    0 <= i < union0.len() && union0[i].weight <= m implies probed.contains(
                    #[trigger] union0[i],
                ) by {
                    assert(sub.contains(union0[i]));
                    let a = choose|a: int| 0 <= a < sub.len() && sub[a] == union0[i];
                    assert(probed.contains(sub[a]));
                }
                assert(same_cheapest_at(union0, es, n, m));
                assert forall|q: int| lb < q <= m implies #[trigger] same_cheapest_at(
                    probed,
                    es,
                    n,
                    q,
                ) by {
                    lemma_light_part_keeps_cheapest(probed, union0, n, m, q);
                    assert(same_cheapest_at(union0, es, n, q));
                    lemma_same_cheapest_trans(probed, union0, es, n, q);
                }
                // the probed edges hold the edges that span below the lower bound
                lemma_light_part(union0, lb);
                lemma_light_part(probed, lb);
                assert(edges_within(
                    union0.filter(weight_at_most(lb)),
                    probed.filter(weight_at_most(lb)),
                )) by {
                    assert forall|i: int|
                        0 <= i < union0.filter(weight_at_most(lb)).len() implies probed.filter(
                        weight_at_most(lb),
                    ).contains(#[trigger] union0.filter(weight_at_most(lb))[i]) by {
                        let e = union0.filter(weight_at_most(lb))[i];
                        assert(union0.contains(e));
                        let a = choose|a: int| 0 <= a < union0.len() && union0[a] == e;
                        assert(probed.contains(union0[a]));
                        let b = choose|b: int| 0 <= b < probed.len() && probed[b] == e;
                        assert(probed.filter(weight_at_most(lb)).contains(probed[b]));
                    }
                }
                crate::algorithms::min_sum_spanning_tree::kruskal::lemma_ends_contained(
                    union0.filter(weight_at_most(lb)),
                    probed.filter(weight_at_most(lb)),
                );
                crate::datastructures::graph::connectivity::lemma_contained_spans(
                    ends_of(union0.filter(weight_at_most(lb))),
                    ends_of(probed.filter(weight_at_most(lb))),
                    n,
                );
                assert(is_trapped(
                    es,
                    graph.nodes@,
                    budget as int,
                    lb,
                    m,
                    probed,
                    unique_weights@,
                    st,
                ));
            }
        }
        Self::recursive_find(
            graph,
            budget,
            lower_bound,
            median_unique,
            graph_below_w.edges_copy(),
            unique_weights,
            (st, cost, bottleneck_min_cost),
        )
    }

    /// Finds the bounds of the search, and the answer where the bounds give it: the
    /// spanning tree of least bottleneck where the whole graph is within the budget, no
    /// solution where the graph is not connected or its cheapest spanning tree is not
    /// within the budget, and the cheapest spanning tree below the lower bound where
    /// that is within the budget.
    pub fn bounds(graph: &mut MutableGraph, budget: i64) -> (r: Bounds)
        requires
            old(graph).wf(),
        ensures
            final(graph).wf(),
            final(graph).nodes == old(graph).nodes,
            final(graph).edges@ == old(graph).edges@ || final(graph).edges@ == sorted_edges(
                old(graph).edges@,
                CalculationType::Cost,
            ),
            match r {
                Bounds::Done(r) => {
                    &&& old(graph).order() >= 2 && all_negative(old(graph).edges@) && is_inverted(
                        old(graph).edges@,
                    ) && cost_sum(old(graph).edges@) > budget ==> is_cheapest_at_least(
                        old(graph).edges@,
                        old(graph).nodes@,
                        candidates(old(graph).edges@),
                        budget as int,
                        r,
                    )
                    &&& !is_trivial(*old(graph)) && cost_sum(old(graph).edges@) <= budget && spans(
                        ends_of(old(graph).edges@),
                        old(graph).order(),
                    ) ==> r.0 is Some
                    &&& old(graph).order() >= 2 && all_negative(old(graph).edges@) && is_inverted(
                        old(graph).edges@,
                    ) ==> is_best_answer(old(graph).edges@, old(graph).nodes@, budget as int, r)
                    &&& !is_trivial(*old(graph)) && !spans(
                        ends_of(old(graph).edges@),
                        old(graph).order(),
                    ) ==> r.0 is None
                    &&& !is_trivial(*old(graph)) && cost_sum(old(graph).edges@) > budget
                        && forest_sum(old(graph).edges@, CalculationType::Cost) > budget ==> r.0 is None
                    &&& is_trivial(*old(graph)) ==> is_trivial_answer(*old(graph), r)
                    &&& !is_trivial(*old(graph)) ==> match r.0 {
                        Some(t) => is_solution(
                            old(graph).edges@,
                            old(graph).nodes@,
                            budget as int,
                            t,
                            r.1 as int,
                            r.2 as int,
                        ),
                        None => r.1 == 0 && r.2 == 0,
                    }
                },
                Bounds::Open { lower_bound, upper_bound, union_edges, unique_weights, best } => {
                    &&& cost_sum(old(graph).edges@) > budget
                    &&& old(graph).order() >= 2 && all_negative(old(graph).edges@) && is_inverted(
                        old(graph).edges@,
                    ) ==> is_trapped(
                        final(graph).edges@,
                        final(graph).nodes@,
                        budget as int,
                        lower_bound as int,
                        upper_bound as int,
                        union_edges@,
                        unique_weights@,
                        best.0,
                    ) && unique_weights@.to_set() == crate::algorithms::util::weights_between(
                        final(graph).edges@,
                        NEG_INFINITY as int,
                        0,
                    )
                    &&& !is_trivial(*old(graph))
                    &&& spans(ends_of(old(graph).edges@), old(graph).order())
                    &&& !(cost_sum(old(graph).edges@) > budget && forest_sum(
                        old(graph).edges@,
                        CalculationType::Cost,
                    ) > budget)
                    &&& edges_within(union_edges@, final(graph).edges@)
                    &&& unique_weights@.no_duplicates()
                    &&& final(graph).edges@ == sorted_edges(old(graph).edges@, CalculationType::Cost)
                    &&& is_solution(
                        final(graph).edges@,
                        final(graph).nodes@,
                        budget as int,
                        best.0,
                        best.1 as int,
                        best.2 as int,
                    )
                },
            },
    {
        if graph.edges.len() == 0 && graph.nodes.len() <= 1 {
            return Bounds::Done((Some(MutableGraph::new(graph.nodes_copy(), Vec::new())), 0, 0));
        }
        let ghost before = graph.edges@;
        let ghost n = graph.order();
        let ghost nodes = graph.nodes@;
        let ghost exact = n >= 2 && all_negative(before) && is_inverted(before);
        let (op_bst, bottleneck_mbst) = graph.mbst();
        let total_cost = graph.calculate_total_cost();
        let bst = match op_bst {
            Some(bst) => bst,
            None => {
                return Bounds::Done((None, 0, 0));
            },
        };
        if graph.nodes.len() == 0 || bst.edges.len() + 1 != graph.nodes.len() {
            // the graph is not connected
            proof {
                if exact {
                    assert forall|q: i64| #[trigger] candidates(before).contains(q) implies !feasible(
                        before,
                        n,
                        q as int,
                        budget as int,
                    ) by {
                        if feasible(before, n, q as int, budget as int) {
                            crate::algorithms::constrained_bottleneck_spanning_tree::feasibility::lemma_feasible_has_tree(
                                before,
                                n,
                                q as int,
                                budget as int,
                            );
                            let t = crate::algorithms::min_sum_spanning_tree::kruskal::forest_of(
                                before.filter(weight_at_most(q as int)),
                                CalculationType::Cost,
                            );
                            lemma_light_part(before, q as int);
                            lemma_edges_within_trans(t, before.filter(weight_at_most(q as int)), before);
                            crate::algorithms::min_sum_spanning_tree::kruskal::lemma_ends_contained(
                                t,
                                before,
                            );
                            crate::datastructures::graph::connectivity::lemma_contained_spans(
                                ends_of(t),
                                ends_of(before),
                                n,
                            );
                        }
                    }
                }
                assert forall|t: Seq<Edge>| !#[trigger] is_feasible_tree(before, n, budget as int, t) by {
                    if is_feasible_tree(before, n, budget as int, t) {
                        crate::algorithms::min_sum_spanning_tree::kruskal::lemma_ends_contained(
                            t,
                            before,
                        );
                        crate::datastructures::graph::connectivity::lemma_contained_spans(
                            ends_of(t),
                            ends_of(before),
                            n,
                        );
                    }
                }
            }
            return Bounds::Done((None, 0, 0));
        }
        let ghost least = bst.edges@;
        proof {
            // no spanning tree has a smaller largest weight than the tree of least
            // bottleneck, whose bottleneck, on inverted weights, is its largest weight
            if exact {
                lemma_all_negative_within(least, before);
                assert(least[0].weight < 0);
                assert(bottleneck_mbst == max_weight(least));
            }
        }
        if total_cost <= budget as i128 {
            let cost = bst.calculate_total_cost();
            proof {
                lemma_tree_costs_less(least, before, n);
                if exact {
                    assert forall|t: Seq<Edge>| #[trigger]
                        is_feasible_tree(before, n, budget as int, t) implies max_weight(least)
                        <= max_weight(t) by {}
                }
            }
            return Bounds::Done((Some(bst), cost, bottleneck_mbst));
        }
        proof {
            lemma_sorted_same_edges(before, CalculationType::Cost);
            lemma_sorted_keeps_graph(before, CalculationType::Cost, graph.order());
        }
        let (op_min_cost_st, global_cost, upper_bound) = graph.mst(CalculationType::Cost);
        let ghost sorted = graph.edges@;
        let global = match op_min_cost_st {
            Some(st) => st,
            None => {
                return Bounds::Done((None, 0, 0));
            },
        };
        if global_cost > budget as i128 {
            proof {
                assert forall|t: Seq<Edge>| !#[trigger] is_feasible_tree(before, n, budget as int, t) by {
                    if is_feasible_tree(before, n, budget as int, t) {
                        lemma_forest_is_cheapest(before, t, CalculationType::Cost, n);
                    }
                }
                if exact {
                    assert forall|q: i64| #[trigger] candidates(before).contains(q) implies !feasible(
                        before,
                        n,
                        q as int,
                        budget as int,
                    ) by {
                        if feasible(before, n, q as int, budget as int) {
                            crate::algorithms::constrained_bottleneck_spanning_tree::feasibility::lemma_feasible_has_tree(
                                before,
                                n,
                                q as int,
                                budget as int,
                            );
                            let t = crate::algorithms::min_sum_spanning_tree::kruskal::forest_of(
                                before.filter(weight_at_most(q as int)),
                                CalculationType::Cost,
                            );
                            lemma_light_part(before, q as int);
                            lemma_edges_within_trans(t, before.filter(weight_at_most(q as int)), before);
                            assert(is_feasible_tree(before, n, budget as int, t));
                        }
                    }
                }
            }
            return Bounds::Done((None, 0, 0));
        }
        proof {
            lemma_greedy_forest(sorted);
            assert(edges_within(global.edges@, sorted));
            assert(edges_within(sorted, before));
            lemma_edges_within_trans(global.edges@, sorted, before);
            if all_negative(before) {
                lemma_all_negative_within(sorted, before);
            }
        }
        let lower_bound = bottleneck_mbst;
        let mut graph_lower_bound = graph.smaller_or_eq_than(lower_bound);
        let ghost below = graph_lower_bound.edges@;
        proof {
            lemma_filter_fits(sorted, weight_at_most(lower_bound as int), graph.order());
            lemma_sorted_same_edges(below, CalculationType::Cost);
        }
        let (op_min_cost_st, cost, bottleneck_min_cost) = graph_lower_bound.mst(
            CalculationType::Cost,
        );
        proof {
            if exact {
                // the tree of least bottleneck lies below the lower bound
                assert forall|i: int| 0 <= i < least.len() implies (#[trigger] least[i]).weight
                    <= lower_bound by {
                    lemma_max_weight_bounds(least, i);
                }
                lemma_edges_within_trans(least, before, sorted);
                lemma_tree_in_light_part(sorted, lower_bound as int, least);
                crate::algorithms::min_sum_spanning_tree::kruskal::lemma_ends_contained(least, below);
                crate::datastructures::graph::connectivity::lemma_contained_spans(
                    ends_of(least),
                    ends_of(below),
                    n,
                );
            }
        }
        let lowest = match op_min_cost_st {
            Some(st) => st,
            None => {
                return Bounds::Done((None, 0, 0));
            },
        };
        proof {
            lemma_greedy_forest(graph_lower_bound.edges@);
            assert(edges_within(lowest.edges@, graph_lower_bound.edges@));
            assert(edges_within(graph_lower_bound.edges@, below));
            lemma_edges_within_trans(lowest.edges@, graph_lower_bound.edges@, below);
            lemma_edges_within_trans(lowest.edges@, below, sorted);
            lemma_edges_within_trans(lowest.edges@, sorted, before);
            if all_negative(before) {
                lemma_all_negative_within(below, sorted);
                lemma_all_negative_within(graph_lower_bound.edges@, below);
            }
        }
        if cost <= budget as i128 {
            proof {
                if exact {
                    lemma_light_part(sorted, lower_bound as int);
                    assert forall|t: Seq<Edge>| #[trigger]
                        is_feasible_tree(before, n, budget as int, t) implies max_weight(
                        lowest.edges@,
                    ) <= max_weight(t) by {
                        lemma_max_weight_attained(lowest.edges@);
                        crate::algorithms::bottleneck::lemma_max_weight_floor(t);
                        if max_weight(lowest.edges@) != NEG_INFINITY {
                            let i = choose|i: int|
                                0 <= i < lowest.edges@.len() && (#[trigger] lowest.edges@[i]).weight
                                    == max_weight(lowest.edges@);
                            assert(below.contains(lowest.edges@[i]));
                        }
                        assert(max_weight(least) <= max_weight(t));
                    }
                    // the lower bound is the least pivot that allows a tree
                    let lb = lower_bound as int;
                    lemma_bottleneck_is_a_weight(before, least);
                    assert(candidates(before).contains(lower_bound));
                    lemma_same_edges_same_cheapest(sorted, before, n, lb);
                    assert(feasible(sorted, n, lb, budget as int));
                    lemma_same_cheapest_cost(sorted, before, n, lb, budget as int);
                    assert forall|i: int| 0 <= i < lowest.edges@.len() implies (
                    #[trigger] lowest.edges@[i]).weight <= lower_bound by {
                        assert(below.contains(lowest.edges@[i]));
                    }
                    assert forall|q: i64| #[trigger]
                        candidates(before).contains(q) && q < lower_bound implies !feasible(
                        before,
                        n,
                        q as int,
                        budget as int,
                    ) by {
                        if feasible(before, n, q as int, budget as int) {
                            crate::algorithms::constrained_bottleneck_spanning_tree::feasibility::lemma_feasible_has_tree(
                                before,
                                n,
                                q as int,
                                budget as int,
                            );
                            let t = crate::algorithms::min_sum_spanning_tree::kruskal::forest_of(
                                before.filter(weight_at_most(q as int)),
                                CalculationType::Cost,
                            );
                            lemma_light_part(before, q as int);
                            lemma_edges_within_trans(t, before.filter(weight_at_most(q as int)), before);
                            assert(is_feasible_tree(before, n, budget as int, t));
                            lemma_bottleneck_is_a_weight(before, t);
                            lemma_max_weight_attained(t);
                            let i = choose|i: int|
                                0 <= i < t.len() && (#[trigger] t[i]).weight == max_weight(t);
                            assert(before.filter(weight_at_most(q as int)).contains(t[i]));
                        }
                    }
                }
            }
            return Bounds::Done((Some(lowest), cost, bottleneck_min_cost));
        }
        let disjoint_graph = graph.bigger_than(lower_bound);
        let union_edges = Util::union_edges(disjoint_graph.edges(), lowest.edges());
        let unique_weights = Util::unique_weight_list(graph.edges(), NEG_INFINITY, 0);
        proof {
            lemma_filter_fits(sorted, weight_above(lower_bound as int), graph.order());
            lemma_concat_within(disjoint_graph.edges@, lowest.edges@, sorted);
            lemma_first_occurrences_within(disjoint_graph.edges@ + lowest.edges@);
            lemma_edges_within_trans(union_edges@, disjoint_graph.edges@ + lowest.edges@, sorted);
            if exact {
                let lb = lower_bound as int;
                assert(union_edges@ == replaced(sorted, lb));
                lemma_all_negative_within(sorted, before);
                assert forall|q: int| lb < q <= upper_bound implies #[trigger] same_cheapest_at(
                    union_edges@,
                    sorted,
                    n,
                    q,
                ) by {
                    lemma_replacement_keeps_cheapest(sorted, n, lb, q);
                }
                lemma_replaced_spans(sorted, n, lb);
                assert(is_inverted(sorted)) by {
                    assert forall|i: int| 0 <= i < sorted.len() implies NEG_INFINITY < (
                    #[trigger] sorted[i]).weight <= 0 by {
                        assert(before.contains(sorted[i]));
                    }
                }
                // the cheapest tree weighs its bottleneck at most
                lemma_all_negative_within(global.edges@, before);
                crate::datastructures::graph::connectivity::lemma_tree_size(ends_of(global.edges@), n);
                assert(global.edges@[0].weight < 0);
                assert forall|i: int| 0 <= i < global.edges@.len() implies (
                #[trigger] global.edges@[i]).weight <= upper_bound by {
                    lemma_max_weight_bounds(global.edges@, i);
                }
                assert forall|i: int|
                    0 <= i < sorted.len() && lb < sorted[i].weight
                        <= upper_bound implies unique_weights@.contains((#[trigger] sorted[i]).weight) by {
                    assert(before.contains(sorted[i]));
                    assert(crate::algorithms::util::weights_between(
                        sorted,
                        NEG_INFINITY as int,
                        0,
                    ).contains(sorted[i].weight));
                    assert(unique_weights@.to_set().contains(sorted[i].weight));
                }
            }
        }
        Bounds::Open {
            lower_bound,
            upper_bound,
            union_edges,
            unique_weights,
            best: (global, global_cost, upper_bound),
        }
    }
}

} // verus!
