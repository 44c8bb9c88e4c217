use crate::algorithms::bottleneck::{lemma_max_weight_attained, lemma_max_weight_floor};
use crate::algorithms::constrained_bottleneck_spanning_tree::feasibility::{
    is_answer, is_best_answer, is_cheapest_at_least, is_feasible_tree, is_inverted,
    lemma_bottleneck_is_a_weight, lemma_feasible_grows, lemma_light_part, lemma_tree_makes_feasible,
};
use crate::algorithms::util::{
    ascending, feasible, is_probe_result, is_trivial, is_trivial_answer, weights_between,
    PivotResult, Util,
};
use crate::datastructures::graph::edge::{max_weight, Edge, NEG_INFINITY};
use crate::datastructures::graph::mutable_graph::{weight_at_most, MutableGraph};
use crate::datastructures::graph::node::Node;
use vstd::prelude::*;

verus! {

/// The pivots that are tried: the distinct weights of the graph that are not above zero.
pub open spec fn candidates(es: Seq<Edge>) -> Set<i64> {
    weights_between(es, NEG_INFINITY as int, 0)
}

/// The answer of a search through the pivots `ws` in their order: the probe of the first
/// pivot that allows a tree, or no solution where none does.
pub open spec fn is_first_feasible(
    es: Seq<Edge>,
    nodes: Seq<Node>,
    ws: Seq<i64>,
    budget: int,
    r: (Option<MutableGraph>, i128, i64),
) -> bool {
    match r.0 {
        Some(t) => exists|k: int|
            {
                &&& 0 <= k < ws.len()
                &&& feasible(es, nodes.len(), #[trigger] ws[k] as int, budget)
                &&& is_probe_result(es, nodes, ws[k] as int, t, r.1 as int, r.2 as int)
                &&& forall|j: int| 0 <= j < k ==> !feasible(es, nodes.len(), #[trigger] ws[j] as int, budget)
            },
        None => {
            &&& r.1 == 0
            &&& r.2 == 0
            &&& forall|j: int|
                0 <= j < ws.len() ==> !feasible(es, nodes.len(), #[trigger] ws[j] as int, budget)
        },
    }
}

/// The answer at the least pivot: the probe of the least of the pivots `c` that allows a
/// tree, or no solution where no pivot allows one.
pub open spec fn is_least_pivot_answer(
    es: Seq<Edge>,
    nodes: Seq<Node>,
    c: Set<i64>,
    budget: int,
    r: (Option<MutableGraph>, i128, i64),
) -> bool {
    match r.0 {
        Some(t) => exists|p: i64|
            {
                &&& #[trigger] c.contains(p)
                &&& feasible(es, nodes.len(), p as int, budget)
                &&& is_probe_result(es, nodes, p as int, t, r.1 as int, r.2 as int)
                &&& forall|q: i64| #[trigger] c.contains(q) && q < p ==> !feasible(es, nodes.len(), q as int, budget)
            },
        None => {
            &&& r.1 == 0
            &&& r.2 == 0
            &&& forall|q: i64| #[trigger] c.contains(q) ==> !feasible(es, nodes.len(), q as int, budget)
        },
    }
}

/// The first pivot of an ascending list that allows a tree is the least of its pivots
/// that does.
pub proof fn lemma_search_answers(
    es: Seq<Edge>,
    nodes: Seq<Node>,
    ws: Seq<i64>,
    c: Set<i64>,
    budget: int,
    r: (Option<MutableGraph>, i128, i64),
)
    requires
        ascending(ws),
        ws.to_set() == c,
        is_first_feasible(es, nodes, ws, budget, r),
    ensures
        is_least_pivot_answer(es, nodes, c, budget, r),
        r.0 is Some ==> is_answer(es, nodes, budget, r),
        r.0 is None ==> is_answer(es, nodes, budget, r),
{
    if r.0 is Some {
        let t = r.0->0;
        let k = choose|k: int|
            {
                &&& 0 <= k < ws.len()
                &&& feasible(es, nodes.len(), #[trigger] ws[k] as int, budget)
                &&& is_probe_result(es, nodes, ws[k] as int, t, r.1 as int, r.2 as int)
                &&& forall|j: int| 0 <= j < k ==> !feasible(es, nodes.len(), #[trigger] ws[j] as int, budget)
            };
        let p = ws[k];
        assert(ws.contains(p));
        assert(c.contains(p));
        assert forall|q: i64| #[trigger] c.contains(q) && q < p implies !feasible(
            es,
            nodes.len(),
            q as int,
            budget,
        ) by {
            assert(ws.contains(q));
            let j = choose|j: int| 0 <= j < ws.len() && ws[j] == q;
            if j > k {
                assert(ws[k] < ws[j]);
            }
        }
        crate::algorithms::util::lemma_probe_is_solution(es, nodes, p as int, budget, t, r.1 as int, r.2 as int);
    } else {
        assert forall|q: i64| #[trigger] c.contains(q) implies !feasible(
            es,
            nodes.len(),
            q as int,
            budget,
        ) by {
            assert(ws.contains(q));
            let j = choose|j: int| 0 <= j < ws.len() && ws[j] == q;
        }
    }
}

/// The answer at the least pivot weighs that pivot at most and costs what the cheapest
/// spanning tree of the edges up to it costs.
pub proof fn lemma_least_pivot_is_cheapest(
    es: Seq<Edge>,
    nodes: Seq<Node>,
    c: Set<i64>,
    budget: int,
    r: (Option<MutableGraph>, i128, i64),
)
    requires
        is_least_pivot_answer(es, nodes, c, budget, r),
    ensures
        is_cheapest_at_least(es, nodes, c, budget, r),
{
    if r.0 is Some {
        let t = r.0->0;
        let p = choose|p: i64|
            {
                &&& #[trigger] c.contains(p)
                &&& feasible(es, nodes.len(), p as int, budget)
                &&& is_probe_result(es, nodes, p as int, t, r.1 as int, r.2 as int)
                &&& forall|q: i64| #[trigger] c.contains(q) && q < p ==> !feasible(es, nodes.len(), q as int, budget)
            };
        crate::algorithms::util::lemma_probe_is_solution(es, nodes, p as int, budget, t, r.1 as int, r.2 as int);
        lemma_light_part(es, p as int);
        assert forall|i: int| 0 <= i < t.edges@.len() implies (#[trigger] t.edges@[i]).weight <= p by {
            assert(es.filter(weight_at_most(p as int)).contains(t.edges@[i]));
        }
    }
}

/// On inverted weights the answer at the least pivot cannot be beaten.
pub proof fn lemma_least_pivot_is_best(
    es: Seq<Edge>,
    nodes: Seq<Node>,
    c: Set<i64>,
    budget: int,
    r: (Option<MutableGraph>, i128, i64),
)
    requires
        forall|i: int| 0 <= i < es.len() ==> (#[trigger] es[i]).fits(nodes.len()),
        nodes.len() >= 1,
        nodes.len() >= 2 || es.len() > 0,
        is_inverted(es),
        c == candidates(es),
        is_least_pivot_answer(es, nodes, c, budget, r),
    ensures
        is_best_answer(es, nodes, budget, r),
{
    let n = nodes.len();
    if r.0 is Some {
        let t = r.0->0;
        let p = choose|p: i64|
            {
                &&& #[trigger] c.contains(p)
                &&& feasible(es, n, p as int, budget)
                &&& is_probe_result(es, nodes, p as int, t, r.1 as int, r.2 as int)
                &&& forall|q: i64| #[trigger] c.contains(q) && q < p ==> !feasible(es, n, q as int, budget)
            };
        crate::algorithms::util::lemma_probe_is_solution(es, nodes, p as int, budget, t, r.1 as int, r.2 as int);
        assert forall|other: Seq<Edge>| #[trigger]
            is_feasible_tree(es, n, budget, other) implies max_weight(t.edges@) <= max_weight(other) by {
            lemma_max_weight_floor(other);
            if t.edges@.len() > 0 {
                // the largest weight of the answer is the pivot at most
                lemma_max_weight_attained(t.edges@);
                lemma_light_part(es, p as int);
                assert(max_weight(t.edges@) <= p) by {
                    if max_weight(t.edges@) != NEG_INFINITY {
                        let i = choose|i: int|
                            0 <= i < t.edges@.len() && (#[trigger] t.edges@[i]).weight == max_weight(
                                t.edges@,
                            );
                        assert(es.filter(weight_at_most(p as int)).contains(t.edges@[i]));
                    }
                }
                if max_weight(other) < max_weight(t.edges@) {
                    lemma_bottleneck_is_a_weight(es, other);
                    let q = max_weight(other) as i64;
                    assert(c.contains(q));
                    lemma_tree_makes_feasible(es, n, budget, other, q as int);
                }
            }
        }
    } else {
        assert forall|other: Seq<Edge>| !#[trigger] is_feasible_tree(es, n, budget, other) by {
            if is_feasible_tree(es, n, budget, other) {
                if other.len() > 0 {
                    lemma_bottleneck_is_a_weight(es, other);
                    let q = max_weight(other) as i64;
                    assert(c.contains(q));
                    lemma_tree_makes_feasible(es, n, budget, other, q as int);
                } else {
                    // one node: the empty tree makes every pivot allow a tree
                    let q = es[0].weight;
                    assert(c.contains(q));
                    lemma_max_weight_floor(other);
                    lemma_tree_makes_feasible(es, n, budget, other, q as int);
                }
            }
        }
    }
}

/// Bisection over the distinct weights: a pivot is probed by the cheapest spanning tree of
/// the edges that weigh the pivot at most.
pub struct Berman();

impl Berman {
    /// The cheapest spanning tree of the edges up to the least pivot that allows a tree
    /// within the budget, with its cost and bottleneck. Where no pivot allows one there
    /// is no solution, and cost and bottleneck are 0. On inverted weights no spanning
    /// tree within the budget has a smaller bottleneck than the answer, and no solution
    /// means that there is no such tree.
    pub fn run(graph: &mut MutableGraph, budget: i64) -> (r: (Option<MutableGraph>, i128, i64))
        requires
            old(graph).wf(),
        ensures
            *final(graph) == *old(graph),
            is_trivial(*old(graph)) ==> is_trivial_answer(*old(graph), r),
            !is_trivial(*old(graph)) ==> is_least_pivot_answer(
                old(graph).edges@,
                old(graph).nodes@,
                candidates(old(graph).edges@),
                budget as int,
                r,
            ),
            !is_trivial(*old(graph)) ==> is_answer(
                old(graph).edges@,
                old(graph).nodes@,
                budget as int,
                r,
            ),
            !is_trivial(*old(graph)) ==> is_cheapest_at_least(
                old(graph).edges@,
                old(graph).nodes@,
                candidates(old(graph).edges@),
                budget as int,
                r,
            ),
            !is_trivial(*old(graph)) && is_inverted(old(graph).edges@) ==> is_best_answer(
                old(graph).edges@,
                old(graph).nodes@,
                budget as int,
                r,
            ),
    {
        if graph.edges.len() == 0 && graph.nodes.len() <= 1 {
            return (Some(MutableGraph::new(graph.nodes_copy(), Vec::new())), 0, 0);
        }
        let mut unique_weights = Util::unique_weight_list(graph.edges(), NEG_INFINITY, 0);
        Util::sort_unique(&mut unique_weights);
        let r = Self::bisection_search(graph, &unique_weights, budget);
        proof {
            let ws = unique_weights@;
            let c = candidates(graph.edges@);
            assert(ws.to_set() == c);
            lemma_search_answers(graph.edges@, graph.nodes@, ws, c, budget as int, r);
            lemma_least_pivot_is_cheapest(graph.edges@, graph.nodes@, c, budget as int, r);
            if graph.edges@.len() > 0 {
                assert(graph.edges@[0].fits(graph.order()));
            }
            if is_inverted(graph.edges@) {
                lemma_least_pivot_is_best(graph.edges@, graph.nodes@, c, budget as int, r);
            }
        }
        r
    }

    /// Probes the pivots in their order and stops at the first that allows a tree.
    pub fn naive_search(graph: &MutableGraph, unique_weights: &Vec<i64>, budget: i64) -> (r: (
        Option<MutableGraph>,
        i128,
        i64,
    ))
        requires
            graph.wf(),
        ensures
            is_first_feasible(graph.edges@, graph.nodes@, unique_weights@, budget as int, r),
    {
        let mut i: usize = 0;
        while i < unique_weights.len()
            invariant
                i <= unique_weights@.len(),
                graph.wf(),
                forall|j: int|
                    0 <= j < i ==> !feasible(
                        graph.edges@,
                        graph.order(),
                        #[trigger] unique_weights@[j] as int,
                        budget as int,
                    ),
            decreases unique_weights@.len() - i,
        {
            match Util::check_pivot(graph, unique_weights[i], budget) {
                PivotResult::Feasible(st) => {
                    return (Some(st.0), st.1, st.2);
                },
                PivotResult::Infeasible => {},
            }
            i = i + 1;
        }
        (None, 0, 0)
    }

    /// Bisection over the pivots, which are in ascending order: where the probe in the
    /// middle allows a tree, it is kept and the search goes on below, else it goes on
    /// above. It ends at the least pivot that allows a tree.
    pub fn bisection_search(graph: &MutableGraph, unique_weights: &Vec<i64>, budget: i64) -> (r: (
        Option<MutableGraph>,
        i128,
        i64,
    ))
        requires
            graph.wf(),
            ascending(unique_weights@),
        ensures
            is_first_feasible(graph.edges@, graph.nodes@, unique_weights@, budget as int, r),
    {
        let mut max: usize = unique_weights.len();
        let mut min: usize = 0;
        let mut final_st: Option<MutableGraph> = None;
        let mut cost: i128 = 0;
        let mut bottleneck: i64 = 0;
        while min < max
            invariant
                min <= max <= unique_weights@.len(),
                graph.wf(),
                ascending(unique_weights@),
                forall|j: int|
                    0 <= j < min ==> !feasible(
                        graph.edges@,
                        graph.order(),
                        #[trigger] unique_weights@[j] as int,
                        budget as int,
                    ),
                max == unique_weights@.len() ==> final_st is None && cost == 0 && bottleneck == 0,
                max < unique_weights@.len() ==> {
                    &&& final_st matches Some(t)
                    &&& feasible(
                        graph.edges@,
                        graph.order(),
                        unique_weights@[max as int] as int,
                        budget as int,
                    )
                    &&& is_probe_result(
                        graph.edges@,
                        graph.nodes@,
                        unique_weights@[max as int] as int,
                        t,
                        cost as int,
                        bottleneck as int,
                    )
                },
            decreases max - min,
        {
            let pivot = min + (max - 1 - min) / 2;
            match Util::check_pivot(graph, unique_weights[pivot], budget) {
                PivotResult::Feasible(st) => {
                    max = pivot;
                    final_st = Some(st.0);
                    cost = st.1;
                    bottleneck = st.2;
                },
                PivotResult::Infeasible => {
                    proof {
                        // what the pivot does not allow, no pivot below it allows
                        assert forall|j: int| 0 <= j < pivot + 1 implies !feasible(
                            graph.edges@,
                            graph.order(),
                            #[trigger] unique_weights@[j] as int,
                            budget as int,
                        ) by {
                            if j < pivot {
                                assert(unique_weights@[j] < unique_weights@[pivot as int]);
                            }
                            if feasible(
                                graph.edges@,
                                graph.order(),
                                unique_weights@[j] as int,
                                budget as int,
                            ) {
                                lemma_feasible_grows(
                                    graph.edges@,
                                    graph.order(),
                                    unique_weights@[j] as int,
                                    unique_weights@[pivot as int] as int,
                                    budget as int,
                                );
                            }
                        }
                    }
                    min = pivot + 1;
                },
            }
        }
        (final_st, cost, bottleneck)
    }
}

} // verus!
