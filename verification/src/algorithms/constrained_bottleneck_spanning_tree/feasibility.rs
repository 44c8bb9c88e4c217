use crate::algorithms::bottleneck::{lemma_max_weight_attained, lemma_max_weight_bounds};
use crate::algorithms::min_sum_spanning_tree::cheapest::lemma_forest_is_cheapest;
use crate::algorithms::min_sum_spanning_tree::kruskal::{
    forest_of, forest_sum, greedy_forest, lemma_greedy_forest, lemma_sorted_keeps_graph,
    lemma_sorted_same_edges, sorted_edges, CalculationType, Kruskal,
};
use crate::algorithms::util::{
    edges_within, feasible, is_solution, lemma_edges_within_trans, lemma_filter_fits,
};
use crate::datastructures::graph::connectivity::{
    is_spanning_tree, lemma_same_reach_spans, lemma_tree_size, spans,
};
use crate::datastructures::graph::edge::{cost_sum, ends_of, max_weight, Edge, NEG_INFINITY};
use crate::datastructures::graph::mutable_graph::{weight_at_most, MutableGraph};
use crate::datastructures::graph::node::Node;
use vstd::prelude::*;

verus! {

/// `t` is a spanning tree of the `n` nodes, made of edges of `es`, that costs `budget`
/// at most.
pub open spec fn is_feasible_tree(es: Seq<Edge>, n: nat, budget: int, t: Seq<Edge>) -> bool {
    &&& edges_within(t, es)
    &&& is_spanning_tree(ends_of(t), n)
    &&& cost_sum(t) <= budget
}

/// Every weight is finite and not above zero, as inverted weights are.
pub open spec fn is_inverted(es: Seq<Edge>) -> bool {
    forall|i: int| 0 <= i < es.len() ==> NEG_INFINITY < (#[trigger] es[i]).weight <= 0
}

/// No spanning tree within the budget has a smaller largest weight than `tree`.
pub open spec fn is_best(es: Seq<Edge>, n: nat, budget: int, tree: Seq<Edge>) -> bool {
    forall|t: Seq<Edge>| #[trigger] is_feasible_tree(es, n, budget, t) ==> max_weight(tree) <= max_weight(t)
}

/// There is no spanning tree within the budget.
pub open spec fn is_infeasible(es: Seq<Edge>, n: nat, budget: int) -> bool {
    forall|t: Seq<Edge>| !#[trigger] is_feasible_tree(es, n, budget, t)
}

/// `r` answers the budgeted problem on the graph of the edges `es`: a solution, or no
/// solution with cost and bottleneck 0.
pub open spec fn is_answer(
    es: Seq<Edge>,
    nodes: Seq<Node>,
    budget: int,
    r: (Option<MutableGraph>, i128, i64),
) -> bool {
    match r.0 {
        Some(t) => is_solution(es, nodes, budget, t, r.1 as int, r.2 as int),
        None => r.1 == 0 && r.2 == 0,
    }
}

/// `r` answers the budgeted problem as well as it can be answered: with a solution that
/// no spanning tree within the budget beats, or with no solution where there is no
/// spanning tree within the budget.
pub open spec fn is_best_answer(
    es: Seq<Edge>,
    nodes: Seq<Node>,
    budget: int,
    r: (Option<MutableGraph>, i128, i64),
) -> bool {
    &&& is_answer(es, nodes, budget, r)
    &&& match r.0 {
        Some(t) => is_best(es, nodes.len(), budget, t.edges@),
        None => is_infeasible(es, nodes.len(), budget),
    }
}

/// What a pivot allows, every pivot above it allows, also on a graph without nodes.
pub proof fn lemma_feasible_grows(es: Seq<Edge>, n: nat, p: int, q: int, budget: int)
    requires
        forall|i: int| 0 <= i < es.len() ==> (#[trigger] es[i]).fits(n),
        p <= q,
        feasible(es, n, p, budget),
    ensures
        feasible(es, n, q, budget),
{
    if n >= 1 {
        lemma_feasible_monotone(es, n, p, q, budget);
    } else {
        if es.len() > 0 {
            assert(es[0].fits(n));
        }
        assert(es.filter(weight_at_most(p)) =~= es.filter(weight_at_most(q))) by {
            reveal(Seq::filter);
        }
    }
}

/// The largest weight of a tree of inverted weights that is not empty is the weight of
/// one of its edges, and with it the weight of an edge of the graph.
pub proof fn lemma_bottleneck_is_a_weight(es: Seq<Edge>, t: Seq<Edge>)
    requires
        is_inverted(es),
        edges_within(t, es),
        t.len() > 0,
    ensures
        NEG_INFINITY < max_weight(t) <= 0,
        exists|i: int| 0 <= i < es.len() && (#[trigger] es[i]).weight == max_weight(t),
{
    lemma_max_weight_attained(t);
    lemma_max_weight_bounds(t, 0);
    assert(es.contains(t[0]));
    let i = choose|i: int| 0 <= i < t.len() && (#[trigger] t[i]).weight == max_weight(t);
    assert(es.contains(t[i]));
    let j = choose|j: int| 0 <= j < es.len() && es[j] == t[i];
    assert(es[j].weight == max_weight(t));
}

/// An edge that passes a filter by weight is an edge of the whole and weighs no more
/// than the bound; and an edge of the whole that weighs no more passes.
pub proof fn lemma_light_part(es: Seq<Edge>, p: int)
    ensures
        edges_within(es.filter(weight_at_most(p)), es),
        forall|i: int|
            0 <= i < es.filter(weight_at_most(p)).len() ==> (#[trigger] es.filter(
                weight_at_most(p),
            )[i]).weight <= p,
        forall|i: int|
            0 <= i < es.len() && es[i].weight <= p ==> es.filter(weight_at_most(p)).contains(
                #[trigger] es[i],
            ),
{
    let sub = es.filter(weight_at_most(p));
    assert forall|i: int| 0 <= i < sub.len() implies es.contains(#[trigger] sub[i]) && sub[i].weight
        <= p by {
        assert(sub.contains(sub[i]));
        es.lemma_filter_contains_rev(weight_at_most(p), sub[i]);
        es.lemma_filter_pred(weight_at_most(p), i);
    }
    assert forall|i: int| 0 <= i < es.len() && es[i].weight <= p implies sub.contains(
        #[trigger] es[i],
    ) by {
        es.lemma_filter_contains(weight_at_most(p), i);
    }
}

/// A tree of edges of the whole that weigh no more than the bound is a tree of edges of
/// the light part.
pub proof fn lemma_tree_in_light_part(es: Seq<Edge>, p: int, t: Seq<Edge>)
    requires
        edges_within(t, es),
        forall|i: int| 0 <= i < t.len() ==> (#[trigger] t[i]).weight <= p,
    ensures
        edges_within(t, es.filter(weight_at_most(p))),
{
    lemma_light_part(es, p);
    assert forall|i: int| 0 <= i < t.len() implies es.filter(weight_at_most(p)).contains(
        #[trigger] t[i],
    ) by {
        assert(es.contains(t[i]));
        let j = choose|j: int| 0 <= j < es.len() && es[j] == t[i];
        assert(es.filter(weight_at_most(p)).contains(es[j]));
    }
}

/// A pivot allows a tree exactly when the edges up to it hold a spanning tree within
/// the budget.
pub proof fn lemma_feasible_has_tree(es: Seq<Edge>, n: nat, p: int, budget: int)
    requires
        forall|i: int| 0 <= i < es.len() ==> (#[trigger] es[i]).fits(n),
        n >= 1,
    ensures
        feasible(es, n, p, budget) <==> exists|t: Seq<Edge>| #[trigger]
            is_feasible_tree(es.filter(weight_at_most(p)), n, budget, t),
        feasible(es, n, p, budget) ==> is_feasible_tree(
            es.filter(weight_at_most(p)),
            n,
            budget,
            forest_of(es.filter(weight_at_most(p)), CalculationType::Cost),
        ),
{
    let c = CalculationType::Cost;
    let sub = es.filter(weight_at_most(p));
    lemma_filter_fits(es, weight_at_most(p), n);
    if feasible(es, n, p, budget) {
        let sorted = sorted_edges(sub, c);
        let forest = forest_of(sub, c);
        lemma_sorted_same_edges(sub, c);
        lemma_sorted_keeps_graph(sub, c, n);
        lemma_greedy_forest(sorted);
        Kruskal::lemma_forest_fits(sorted, n);
        lemma_same_reach_spans(ends_of(forest), ends_of(sorted), n);
        lemma_tree_size(ends_of(forest), n);
        lemma_edges_within_trans(forest, sorted, sub);
        assert(is_feasible_tree(sub, n, budget, forest));
    }
    if exists|t: Seq<Edge>| #[trigger] is_feasible_tree(sub, n, budget, t) {
        let t = choose|t: Seq<Edge>| #[trigger] is_feasible_tree(sub, n, budget, t);
        lemma_forest_is_cheapest(sub, t, c, n);
    }
}

/// What a pivot allows, every pivot above it allows.
pub proof fn lemma_feasible_monotone(es: Seq<Edge>, n: nat, p: int, q: int, budget: int)
    requires
        forall|i: int| 0 <= i < es.len() ==> (#[trigger] es[i]).fits(n),
        n >= 1,
        p <= q,
        feasible(es, n, p, budget),
    ensures
        feasible(es, n, q, budget),
{
    lemma_feasible_has_tree(es, n, p, budget);
    lemma_feasible_has_tree(es, n, q, budget);
    let t = forest_of(es.filter(weight_at_most(p)), CalculationType::Cost);
    lemma_light_part(es, p);
    lemma_edges_within_trans(t, es.filter(weight_at_most(p)), es);
    assert forall|i: int| 0 <= i < t.len() implies (#[trigger] t[i]).weight <= q by {
        assert(es.filter(weight_at_most(p)).contains(t[i]));
    }
    lemma_tree_in_light_part(es, q, t);
    assert(is_feasible_tree(es.filter(weight_at_most(q)), n, budget, t));
}

/// A spanning tree within the budget makes the pivot at its largest weight, and every
/// pivot above that, allow a tree.
pub proof fn lemma_tree_makes_feasible(es: Seq<Edge>, n: nat, budget: int, t: Seq<Edge>, q: int)
    requires
        forall|i: int| 0 <= i < es.len() ==> (#[trigger] es[i]).fits(n),
        n >= 1,
        is_feasible_tree(es, n, budget, t),
        max_weight(t) <= q,
    ensures
        feasible(es, n, q, budget),
{
    assert forall|i: int| 0 <= i < t.len() implies (#[trigger] t[i]).weight <= q by {
        lemma_max_weight_bounds(t, i);
    }
    lemma_tree_in_light_part(es, q, t);
    lemma_feasible_has_tree(es, n, q, budget);
    assert(is_feasible_tree(es.filter(weight_at_most(q)), n, budget, t));
}

/// More edges allow what fewer edges allow.
pub proof fn lemma_more_edges_allow_more(
    part: Seq<Edge>,
    whole: Seq<Edge>,
    n: nat,
    p: int,
    budget: int,
)
    requires
        forall|i: int| 0 <= i < whole.len() ==> (#[trigger] whole[i]).fits(n),
        n >= 1,
        edges_within(part, whole),
        feasible(part, n, p, budget),
    ensures
        feasible(whole, n, p, budget),
{
    crate::algorithms::util::lemma_within_fits(part, whole, n);
    lemma_feasible_has_tree(part, n, p, budget);
    lemma_feasible_has_tree(whole, n, p, budget);
    let t = forest_of(part.filter(weight_at_most(p)), CalculationType::Cost);
    lemma_light_part(part, p);
    lemma_edges_within_trans(t, part.filter(weight_at_most(p)), part);
    lemma_edges_within_trans(t, part, whole);
    assert forall|i: int| 0 <= i < t.len() implies (#[trigger] t[i]).weight <= p by {
        assert(part.filter(weight_at_most(p)).contains(t[i]));
    }
    lemma_tree_in_light_part(whole, p, t);
    assert(is_feasible_tree(whole.filter(weight_at_most(p)), n, budget, t));
}

/// Two sets of edges allow a tree at the same pivots.
pub open spec fn same_feasibility(a: Seq<Edge>, b: Seq<Edge>, n: nat, budget: int) -> bool {
    forall|p: int|
        #![trigger feasible(a, n, p, budget)]
        #![trigger feasible(b, n, p, budget)]
        feasible(a, n, p, budget) <==> feasible(b, n, p, budget)
}

/// Dropping the edges above the largest weight of a spanning tree within the budget
/// changes nothing in what the pivots allow.
pub proof fn lemma_restriction_keeps_feasibility(
    es: Seq<Edge>,
    n: nat,
    budget: int,
    t: Seq<Edge>,
    b: int,
)
    requires
        forall|i: int| 0 <= i < es.len() ==> (#[trigger] es[i]).fits(n),
        n >= 1,
        is_feasible_tree(es, n, budget, t),
        forall|i: int| 0 <= i < t.len() ==> (#[trigger] t[i]).weight <= b,
    ensures
        same_feasibility(es.filter(weight_at_most(b)), es, n, budget),
{
    let kept = es.filter(weight_at_most(b));
    lemma_light_part(es, b);
    lemma_filter_fits(es, weight_at_most(b), n);
    lemma_tree_in_light_part(es, b, t);
    assert forall|p: int|
        #![trigger feasible(kept, n, p, budget)]
        #![trigger feasible(es, n, p, budget)]
        feasible(kept, n, p, budget) <==> feasible(es, n, p, budget) by {
        if feasible(kept, n, p, budget) {
            lemma_more_edges_allow_more(kept, es, n, p, budget);
        }
        if feasible(es, n, p, budget) {
            lemma_feasible_has_tree(es, n, p, budget);
            lemma_feasible_has_tree(kept, n, p, budget);
            if p <= b {
                let t2 = forest_of(es.filter(weight_at_most(p)), CalculationType::Cost);
                lemma_light_part(es, p);
                lemma_edges_within_trans(t2, es.filter(weight_at_most(p)), es);
                assert forall|i: int| 0 <= i < t2.len() implies (#[trigger] t2[i]).weight <= p by {
                    assert(es.filter(weight_at_most(p)).contains(t2[i]));
                }
                lemma_tree_in_light_part(es, b, t2);
                lemma_tree_in_light_part(kept, p, t2);
                assert(is_feasible_tree(kept.filter(weight_at_most(p)), n, budget, t2));
            } else {
                lemma_tree_in_light_part(kept, p, t);
                assert(is_feasible_tree(kept.filter(weight_at_most(p)), n, budget, t));
            }
        }
    }
}

/// The answer of a search that has closed in on the least pivot: a solution whose
/// weights are a pivot at most below which no pivot allows a tree, or no solution where
/// no pivot allows one.
pub open spec fn is_closed_in(
    es: Seq<Edge>,
    nodes: Seq<Node>,
    c: Set<i64>,
    budget: int,
    r: (Option<MutableGraph>, i128, i64),
) -> bool {
    match r.0 {
        Some(t) => exists|p: i64|
            {
                &&& #[trigger] c.contains(p)
                &&& forall|i: int| 0 <= i < t.edges@.len() ==> (#[trigger] t.edges@[i]).weight <= p
                &&& forall|q: i64| #[trigger]
                    c.contains(q) && q < p ==> !feasible(es, nodes.len(), q as int, budget)
            },
        None => forall|q: i64| #[trigger] c.contains(q) ==> !feasible(es, nodes.len(), q as int, budget),
    }
}

/// An answer that has closed in on the least pivot cannot be beaten, where the pivots
/// hold the largest weight of every spanning tree within the budget.
pub proof fn lemma_closed_in_is_best(
    es: Seq<Edge>,
    nodes: Seq<Node>,
    c: Set<i64>,
    budget: int,
    r: (Option<MutableGraph>, i128, i64),
)
    requires
        forall|i: int| 0 <= i < es.len() ==> (#[trigger] es[i]).fits(nodes.len()),
        nodes.len() >= 1,
        is_answer(es, nodes, budget, r),
        is_closed_in(es, nodes, c, budget, r),
        forall|t: Seq<Edge>| #[trigger]
            is_feasible_tree(es, nodes.len(), budget, t) ==> exists|q: i64| #[trigger]
                c.contains(q) && max_weight(t) <= q && (t.len() > 0 ==> q == max_weight(t)),
    ensures
        is_best_answer(es, nodes, budget, r),
{
    let n = nodes.len();
    if r.0 is Some {
        let t = r.0->0;
        let p = choose|p: i64|
            {
                &&& #[trigger] c.contains(p)
                &&& forall|i: int| 0 <= i < t.edges@.len() ==> (#[trigger] t.edges@[i]).weight <= p
                &&& forall|q: i64| #[trigger]
                    c.contains(q) && q < p ==> !feasible(es, n, q as int, budget)
            };
        assert forall|other: Seq<Edge>| #[trigger]
            is_feasible_tree(es, n, budget, other) implies max_weight(t.edges@) <= max_weight(other) by {
            crate::algorithms::bottleneck::lemma_max_weight_floor(other);
            lemma_max_weight_attained(t.edges@);
            if max_weight(other) < max_weight(t.edges@) {
                let i = choose|i: int|
                    0 <= i < t.edges@.len() && (#[trigger] t.edges@[i]).weight == max_weight(t.edges@);
                assert(t.edges@[i].weight <= p);
                // both are spanning trees of the same nodes: the other is not empty
                assert(other.len() == t.edges@.len());
                let q = choose|q: i64| #[trigger]
                    c.contains(q) && max_weight(other) <= q && (other.len() > 0 ==> q == max_weight(
                        other,
                    ));
                lemma_tree_makes_feasible(es, n, budget, other, q as int);
            }
        }
    } else {
        assert forall|other: Seq<Edge>| !#[trigger] is_feasible_tree(es, n, budget, other) by {
            if is_feasible_tree(es, n, budget, other) {
                let q = choose|q: i64| #[trigger]
                    c.contains(q) && max_weight(other) <= q && (other.len() > 0 ==> q == max_weight(
                        other,
                    ));
                lemma_tree_makes_feasible(es, n, budget, other, q as int);
            }
        }
    }
}

/// The distinct weights of inverted edges hold the largest weight of every spanning
/// tree of them, and a weight for the empty tree of a single node.
pub proof fn lemma_candidates_cover(es: Seq<Edge>, n: nat, budget: int, c: Set<i64>)
    requires
        is_inverted(es),
        n >= 2 || es.len() > 0,
        forall|w: i64|
            c.contains(w) <==> (exists|i: int| 0 <= i < es.len() && (#[trigger] es[i]).weight == w),
    ensures
        forall|t: Seq<Edge>| #[trigger]
            is_feasible_tree(es, n, budget, t) ==> exists|q: i64| #[trigger]
                c.contains(q) && max_weight(t) <= q && (t.len() > 0 ==> q == max_weight(t)),
{
    assert forall|t: Seq<Edge>| #[trigger] is_feasible_tree(es, n, budget, t) implies exists|q: i64| #[trigger]
        c.contains(q) && max_weight(t) <= q && (t.len() > 0 ==> q == max_weight(t)) by {
        if t.len() > 0 {
            lemma_bottleneck_is_a_weight(es, t);
            let q = max_weight(t) as i64;
            assert(c.contains(q));
        } else {
            let q = es[0].weight;
            assert(c.contains(q));
            assert(max_weight(t) == NEG_INFINITY);
        }
    }
}

/// An edge of a list stands somewhere in it for the first time.
pub proof fn lemma_first_place(s: Seq<Edge>, x: Edge) -> (m: int)
    requires
        s.contains(x),
    ensures
        0 <= m < s.len(),
        s[m] == x,
        forall|j: int| 0 <= j < m ==> s[j] != x,
    decreases s.len(),
{
    let j = choose|j: int| 0 <= j < s.len() && s[j] == x;
    if s.drop_last().contains(x) {
        let m = lemma_first_place(s.drop_last(), x);
        assert forall|j: int| 0 <= j < m implies s[j] != x by {
            assert(s.drop_last()[j] != x);
        }
        m
    } else {
        assert forall|i: int| 0 <= i < s.len() - 1 implies s[i] != x by {
            if s[i] == x {
                assert(s.drop_last()[i] == x);
            }
        }
        s.len() - 1
    }
}

/// The cheapest spanning forest of the edges up to a pivot holds every edge up to that
/// pivot that the cheapest spanning forest of the edges up to a larger pivot holds.
pub proof fn lemma_forest_of_more_edges(es: Seq<Edge>, p: int, q: int, i: int)
    requires
        p <= q,
        0 <= i < forest_of(es.filter(weight_at_most(q)), CalculationType::Cost).len(),
        forest_of(es.filter(weight_at_most(q)), CalculationType::Cost)[i].weight <= p,
    ensures
        forest_of(es.filter(weight_at_most(p)), CalculationType::Cost).contains(
            forest_of(es.filter(weight_at_most(q)), CalculationType::Cost)[i],
        ),
{
    let c = CalculationType::Cost;
    let wq = es.filter(weight_at_most(q));
    let wp = es.filter(weight_at_most(p));
    let sq = sorted_edges(wq, c);
    let sp = sorted_edges(wp, c);
    let e = greedy_forest(sq)[i];
    lemma_sorted_same_edges(wq, c);
    lemma_sorted_same_edges(wp, c);
    lemma_light_part(es, p);
    lemma_light_part(es, q);
    crate::algorithms::min_sum_spanning_tree::kruskal::lemma_precedes_total(c);
    crate::algorithms::min_sum_spanning_tree::kruskal::lemma_taken_somewhere(sq, i);
    let k = choose|k: int| crate::algorithms::min_sum_spanning_tree::kruskal::is_taken_at(sq, i, k);
    // the edge is among the edges up to the smaller pivot
    assert(wq.contains(sq[k]));
    assert(es.contains(e)) by {
        let j = choose|j: int| 0 <= j < wq.len() && wq[j] == e;
        assert(es.contains(wq[j]));
    }
    let x = choose|x: int| 0 <= x < es.len() && es[x] == e;
    assert(wp.contains(es[x]));
    let y = choose|y: int| 0 <= y < wp.len() && wp[y] == e;
    assert(sp.contains(wp[y]));
    let m = lemma_first_place(sp, e);
    // what stands before it there, stands before it among the edges up to the larger
    let before_p = sp.take(m);
    let before_q = sq.take(k);
    assert(crate::datastructures::graph::connectivity::contained(
        ends_of(before_p),
        ends_of(before_q),
    )) by {
        assert forall|j: int| 0 <= j < ends_of(before_p).len() implies ends_of(before_q).contains(
            #[trigger] ends_of(before_p)[j],
        ) by {
            let z = sp[j];
            assert(before_p[j] == z);
            assert(z != e);
            assert(crate::algorithms::min_sum_spanning_tree::kruskal::precedes(c)(sp[j], sp[m]));
            assert(wp.contains(sp[j]));
            let a = choose|a: int| 0 <= a < wp.len() && wp[a] == z;
            assert(es.contains(wp[a]));
            let b = choose|b: int| 0 <= b < es.len() && es[b] == z;
            assert(wp[a].weight <= p);
            assert(wq.contains(es[b]));
            let d = choose|d: int| 0 <= d < wq.len() && wq[d] == z;
            assert(sq.contains(wq[d]));
            let j2 = choose|j2: int| 0 <= j2 < sq.len() && sq[j2] == z;
            if j2 > k {
                assert(crate::algorithms::min_sum_spanning_tree::kruskal::precedes(c)(sq[k], sq[j2]));
            }
            assert(j2 < k);
            assert(before_q[j2] == z);
            assert(ends_of(before_q)[j2] == ends_of(before_p)[j]);
        }
    }
    if crate::datastructures::graph::connectivity::connected(
        ends_of(before_p),
        e.either as int,
        e.other as int,
    ) {
        crate::datastructures::graph::connectivity::lemma_connected_mono(
            ends_of(before_p),
            ends_of(before_q),
            e.either as int,
            e.other as int,
        );
    }
    crate::algorithms::min_sum_spanning_tree::kruskal::lemma_taken_when_apart(sp, m);
}

/// For every edge of a list, what is left of the list when repeats are dropped holds an
/// edge with the same ends, weights and cost.
pub proof fn lemma_twin(s: Seq<Edge>, x: Edge) -> (y: Edge)
    requires
        s.contains(x),
    ensures
        crate::algorithms::util::first_occurrences(s).contains(y),
        crate::algorithms::util::identity(y) == crate::algorithms::util::identity(x),
    decreases s.len(),
{
    let rest = s.drop_last();
    let kept = crate::algorithms::util::first_occurrences(s);
    let kept_before = crate::algorithms::util::first_occurrences(rest);
    if rest.contains(x) {
        let y = lemma_twin(rest, x);
        let i = choose|i: int| 0 <= i < kept_before.len() && kept_before[i] == y;
        assert(kept[i] == y);
        y
    } else {
        let j = choose|j: int| 0 <= j < s.len() && s[j] == x;
        if j < s.len() - 1 {
            assert(rest[j] == x);
        }
        assert(s.last() == x);
        if crate::algorithms::util::identities(rest).contains(crate::algorithms::util::identity(x)) {
            let i = choose|i: int|
                0 <= i < rest.len() && crate::algorithms::util::identity(#[trigger] rest[i])
                    == crate::algorithms::util::identity(x);
            assert(rest.contains(rest[i]));
            let y = lemma_twin(rest, rest[i]);
            let a = choose|a: int| 0 <= a < kept_before.len() && kept_before[a] == y;
            assert(kept[a] == y);
            y
        } else {
            assert(kept[kept.len() - 1] == x);
            x
        }
    }
}

/// Edges that agree one by one in their ends and costs have the same ends and the same
/// sum of costs.
pub proof fn lemma_twins_measure_alike(a: Seq<Edge>, b: Seq<Edge>)
    requires
        a.len() == b.len(),
        forall|i: int|
            0 <= i < a.len() ==> crate::algorithms::util::identity(#[trigger] a[i])
                == crate::algorithms::util::identity(b[i]),
    ensures
        ends_of(a) == ends_of(b),
        cost_sum(a) == cost_sum(b),
    decreases a.len(),
{
    assert(ends_of(a) =~= ends_of(b)) by {
        assert forall|i: int| 0 <= i < a.len() implies ends_of(a)[i] == ends_of(b)[i] by {
            assert(crate::algorithms::util::identity(a[i]) == crate::algorithms::util::identity(b[i]));
        }
    }
    if a.len() > 0 {
        assert forall|i: int| 0 <= i < a.drop_last().len() implies crate::algorithms::util::identity(
            #[trigger] a.drop_last()[i],
        ) == crate::algorithms::util::identity(b.drop_last()[i]) by {
            assert(crate::algorithms::util::identity(a[i]) == crate::algorithms::util::identity(b[i]));
        }
        lemma_twins_measure_alike(a.drop_last(), b.drop_last());
        assert(crate::algorithms::util::identity(a[a.len() - 1]) == crate::algorithms::util::identity(
            b[a.len() - 1],
        ));
    }
}

/// The edges above a pivot together with the cheapest spanning forest of the edges up
/// to it, repeats dropped.
pub open spec fn replaced(es: Seq<Edge>, p: int) -> Seq<Edge> {
    crate::algorithms::util::first_occurrences(
        es.filter(crate::datastructures::graph::mutable_graph::weight_above(p)) + forest_of(
            es.filter(weight_at_most(p)),
            CalculationType::Cost,
        ),
    )
}

/// Replacing the edges up to a pivot by their cheapest spanning forest changes nothing
/// in what the pivots above it allow.
pub proof fn lemma_replacement_keeps_feasibility(es: Seq<Edge>, n: nat, p: int, q: int, budget: int)
    requires
        forall|i: int| 0 <= i < es.len() ==> (#[trigger] es[i]).fits(n),
        n >= 1,
        p < q,
    ensures
        edges_within(replaced(es, p), es),
        feasible(replaced(es, p), n, q, budget) <==> feasible(es, n, q, budget),
{
    let c = CalculationType::Cost;
    let heavy = es.filter(crate::datastructures::graph::mutable_graph::weight_above(p));
    let light = es.filter(weight_at_most(p));
    let forest = forest_of(light, c);
    let joined = heavy + forest;
    let new = replaced(es, p);
    // the new edges are edges of the graph
    lemma_light_part(es, p);
    lemma_light_part(es, q);
    lemma_sorted_same_edges(light, c);
    lemma_greedy_forest(sorted_edges(light, c));
    lemma_edges_within_trans(forest, sorted_edges(light, c), light);
    lemma_edges_within_trans(forest, light, es);
    assert(edges_within(heavy, es)) by {
        assert forall|i: int| 0 <= i < heavy.len() implies es.contains(#[trigger] heavy[i]) by {
            assert(heavy.contains(heavy[i]));
            es.lemma_filter_contains_rev(
                crate::datastructures::graph::mutable_graph::weight_above(p),
                heavy[i],
            );
        }
    }
    crate::algorithms::util::lemma_concat_within(heavy, forest, es);
    crate::algorithms::util::lemma_first_occurrences_within(joined);
    lemma_edges_within_trans(new, joined, es);
    crate::algorithms::util::lemma_within_fits(new, es, n);
    if feasible(new, n, q, budget) {
        lemma_more_edges_allow_more(new, es, n, q, budget);
    }
    if feasible(es, n, q, budget) {
        lemma_feasible_has_tree(es, n, q, budget);
        lemma_feasible_has_tree(new, n, q, budget);
        let wq = es.filter(weight_at_most(q));
        let tree = forest_of(wq, c);
        // every edge of the cheapest tree has a twin among the new edges
        assert forall|i: int| 0 <= i < tree.len() implies joined.contains(#[trigger] tree[i]) by {
            assert(wq.contains(tree[i]));
            let j = choose|j: int| 0 <= j < wq.len() && wq[j] == tree[i];
            assert(es.contains(wq[j]));
            let x = choose|x: int| 0 <= x < es.len() && es[x] == tree[i];
            if tree[i].weight <= p {
                lemma_forest_of_more_edges(es, p, q, i);
                let m = choose|m: int| 0 <= m < forest.len() && forest[m] == tree[i];
                assert(joined[heavy.len() + m] == tree[i]);
            } else {
                es.lemma_filter_contains(
                    crate::datastructures::graph::mutable_graph::weight_above(p),
                    x,
                );
                let m = choose|m: int| 0 <= m < heavy.len() && heavy[m] == tree[i];
                assert(joined[m] == tree[i]);
            }
        }
        let twins = Seq::new(
            tree.len(),
            |i: int|
                choose|y: Edge|
                    new.contains(y) && crate::algorithms::util::identity(y)
                        == crate::algorithms::util::identity(tree[i]),
        );
        assert forall|i: int| 0 <= i < tree.len() implies new.contains(#[trigger] twins[i])
            && crate::algorithms::util::identity(twins[i]) == crate::algorithms::util::identity(
            tree[i],
        ) by {
            let y = lemma_twin(joined, tree[i]);
        }
        lemma_twins_measure_alike(twins, tree);
        assert forall|i: int| 0 <= i < twins.len() implies (#[trigger] twins[i]).weight <= q by {
            assert(crate::algorithms::util::identity(twins[i]) == crate::algorithms::util::identity(
                tree[i],
            ));
            assert(wq.contains(tree[i]));
        }
        assert(edges_within(twins, new));
        lemma_tree_in_light_part(new, q, twins);
        assert(is_feasible_tree(new.filter(weight_at_most(q)), n, budget, twins));
    }
}

/// Where the edges up to a pivot span, so do the edges up to the pivot of what replaces
/// them.
pub proof fn lemma_replaced_spans(es: Seq<Edge>, n: nat, p: int)
    requires
        forall|i: int| 0 <= i < es.len() ==> (#[trigger] es[i]).fits(n),
        spans(ends_of(es.filter(weight_at_most(p))), n),
    ensures
        spans(ends_of(replaced(es, p).filter(weight_at_most(p))), n),
{
    let c = CalculationType::Cost;
    let heavy = es.filter(crate::datastructures::graph::mutable_graph::weight_above(p));
    let light = es.filter(weight_at_most(p));
    let forest = forest_of(light, c);
    let joined = heavy + forest;
    let new = replaced(es, p);
    let kept = new.filter(weight_at_most(p));
    lemma_light_part(es, p);
    lemma_light_part(new, p);
    lemma_sorted_same_edges(light, c);
    lemma_sorted_keeps_graph(light, c, n);
    lemma_greedy_forest(sorted_edges(light, c));
    lemma_same_reach_spans(ends_of(forest), ends_of(sorted_edges(light, c)), n);
    lemma_edges_within_trans(forest, sorted_edges(light, c), light);
    assert(crate::datastructures::graph::connectivity::contained(ends_of(forest), ends_of(kept))) by {
        assert forall|i: int| 0 <= i < ends_of(forest).len() implies ends_of(kept).contains(
            #[trigger] ends_of(forest)[i],
        ) by {
            assert(joined[heavy.len() + i] == forest[i]);
            let y = lemma_twin(joined, forest[i]);
            assert(light.contains(forest[i]));
            let a = choose|a: int| 0 <= a < new.len() && new[a] == y;
            assert(crate::algorithms::util::identity(new[a]) == crate::algorithms::util::identity(
                forest[i],
            ));
            assert(kept.contains(new[a]));
            let b = choose|b: int| 0 <= b < kept.len() && kept[b] == y;
            assert(ends_of(kept)[b] == ends_of(forest)[i]);
        }
    }
    crate::datastructures::graph::connectivity::lemma_contained_spans(
        ends_of(forest),
        ends_of(kept),
        n,
    );
}

/// Where the edges up to a pivot span, so do the edges up to every pivot above it.
pub proof fn lemma_spans_grows(es: Seq<Edge>, n: nat, p: int, q: int)
    requires
        p <= q,
        spans(ends_of(es.filter(weight_at_most(p))), n),
    ensures
        spans(ends_of(es.filter(weight_at_most(q))), n),
{
    let a = es.filter(weight_at_most(p));
    let b = es.filter(weight_at_most(q));
    lemma_light_part(es, p);
    lemma_light_part(es, q);
    assert(edges_within(a, b)) by {
        assert forall|i: int| 0 <= i < a.len() implies b.contains(#[trigger] a[i]) by {
            assert(es.contains(a[i]));
            let x = choose|x: int| 0 <= x < es.len() && es[x] == a[i];
            assert(b.contains(es[x]));
        }
    }
    crate::algorithms::min_sum_spanning_tree::kruskal::lemma_ends_contained(a, b);
    crate::datastructures::graph::connectivity::lemma_contained_spans(ends_of(a), ends_of(b), n);
}

/// A part of the graph that holds every edge of the graph up to a pivot allows what the
/// graph allows, at that pivot and below.
pub proof fn lemma_light_part_keeps_feasibility(
    part: Seq<Edge>,
    es: Seq<Edge>,
    n: nat,
    p: int,
    q: int,
    budget: int,
)
    requires
        forall|i: int| 0 <= i < es.len() ==> (#[trigger] es[i]).fits(n),
        n >= 1,
        edges_within(part, es),
        forall|i: int| 0 <= i < es.len() && es[i].weight <= p ==> part.contains(#[trigger] es[i]),
        q <= p,
    ensures
        feasible(part, n, q, budget) <==> feasible(es, n, q, budget),
{
    crate::algorithms::util::lemma_within_fits(part, es, n);
    if feasible(part, n, q, budget) {
        lemma_more_edges_allow_more(part, es, n, q, budget);
    }
    if feasible(es, n, q, budget) {
        lemma_feasible_has_tree(es, n, q, budget);
        lemma_feasible_has_tree(part, n, q, budget);
        let t = forest_of(es.filter(weight_at_most(q)), CalculationType::Cost);
        lemma_light_part(es, q);
        assert forall|i: int| 0 <= i < t.len() implies part.contains(#[trigger] t[i]) && t[i].weight
            <= q by {
            assert(es.filter(weight_at_most(q)).contains(t[i]));
            let j = choose|j: int|
                0 <= j < es.filter(weight_at_most(q)).len() && es.filter(weight_at_most(q))[j] == t[i];
            assert(es.contains(es.filter(weight_at_most(q))[j]));
            let x = choose|x: int| 0 <= x < es.len() && es[x] == t[i];
            assert(part.contains(es[x]));
        }
        lemma_tree_in_light_part(part, q, t);
        assert(is_feasible_tree(part.filter(weight_at_most(q)), n, budget, t));
    }
}

/// Two sets of edges allow a tree at the pivot `q` for the same budgets: up to `q` they
/// span alike, and their cheapest spanning trees cost the same.
pub open spec fn same_cheapest_at(a: Seq<Edge>, b: Seq<Edge>, n: nat, q: int) -> bool {
    forall|budget: int|
        #![trigger feasible(a, n, q, budget)]
        #![trigger feasible(b, n, q, budget)]
        feasible(a, n, q, budget) <==> feasible(b, n, q, budget)
}

/// Sets of edges that allow a tree for the same budgets have cheapest spanning trees of
/// the same cost.
pub proof fn lemma_same_cheapest_cost(a: Seq<Edge>, b: Seq<Edge>, n: nat, q: int, budget: int)
    requires
        same_cheapest_at(a, b, n, q),
        feasible(a, n, q, budget),
    ensures
        forest_sum(a.filter(weight_at_most(q)), CalculationType::Cost) == forest_sum(
            b.filter(weight_at_most(q)),
            CalculationType::Cost,
        ),
{
    let sum_a = forest_sum(a.filter(weight_at_most(q)), CalculationType::Cost);
    let sum_b = forest_sum(b.filter(weight_at_most(q)), CalculationType::Cost);
    assert(feasible(a, n, q, sum_a));
    assert(feasible(b, n, q, sum_a));
    assert(feasible(b, n, q, sum_b));
    assert(feasible(a, n, q, sum_b));
}

/// Allowing a tree for the same budgets is passed on.
pub proof fn lemma_same_cheapest_trans(a: Seq<Edge>, b: Seq<Edge>, c: Seq<Edge>, n: nat, q: int)
    requires
        same_cheapest_at(a, b, n, q),
        same_cheapest_at(b, c, n, q),
    ensures
        same_cheapest_at(a, c, n, q),
{
    assert forall|budget: int|
        #![trigger feasible(a, n, q, budget)]
        #![trigger feasible(c, n, q, budget)]
        feasible(a, n, q, budget) <==> feasible(c, n, q, budget) by {
        assert(feasible(a, n, q, budget) <==> feasible(b, n, q, budget));
    }
}

/// Replacing the edges up to a pivot by their cheapest spanning forest changes nothing
/// in what the cheapest spanning trees up to the pivots above it cost.
pub proof fn lemma_replacement_keeps_cheapest(es: Seq<Edge>, n: nat, p: int, q: int)
    requires
        forall|i: int| 0 <= i < es.len() ==> (#[trigger] es[i]).fits(n),
        n >= 1,
        p < q,
    ensures
        same_cheapest_at(replaced(es, p), es, n, q),
{
    assert forall|budget: int|
        #![trigger feasible(replaced(es, p), n, q, budget)]
        #![trigger feasible(es, n, q, budget)]
        feasible(replaced(es, p), n, q, budget) <==> feasible(es, n, q, budget) by {
        lemma_replacement_keeps_feasibility(es, n, p, q, budget);
    }
}

/// A part of the graph that holds every edge of the graph up to a pivot has, at that
/// pivot and below, cheapest spanning trees that cost what those of the graph cost.
pub proof fn lemma_light_part_keeps_cheapest(part: Seq<Edge>, es: Seq<Edge>, n: nat, p: int, q: int)
    requires
        forall|i: int| 0 <= i < es.len() ==> (#[trigger] es[i]).fits(n),
        n >= 1,
        edges_within(part, es),
        forall|i: int| 0 <= i < es.len() && es[i].weight <= p ==> part.contains(#[trigger] es[i]),
        q <= p,
    ensures
        same_cheapest_at(part, es, n, q),
{
    assert forall|budget: int|
        #![trigger feasible(part, n, q, budget)]
        #![trigger feasible(es, n, q, budget)]
        feasible(part, n, q, budget) <==> feasible(es, n, q, budget) by {
        lemma_light_part_keeps_feasibility(part, es, n, p, q, budget);
    }
}

/// Dropping the edges above a bound that the cheapest spanning tree of the edges up to
/// a pivot keeps to changes nothing in what the cheapest spanning trees cost, at that
/// pivot and below.
pub proof fn lemma_restriction_keeps_cheapest(es: Seq<Edge>, n: nat, p: int, b: int, q: int)
    requires
        forall|i: int| 0 <= i < es.len() ==> (#[trigger] es[i]).fits(n),
        n >= 1,
        spans(ends_of(es.filter(weight_at_most(p))), n),
        forall|i: int|
            0 <= i < forest_of(es.filter(weight_at_most(p)), CalculationType::Cost).len() ==> (
            #[trigger] forest_of(es.filter(weight_at_most(p)), CalculationType::Cost)[i]).weight <= b,
        q <= p,
    ensures
        same_cheapest_at(es.filter(weight_at_most(b)), es, n, q),
{
    let kept = es.filter(weight_at_most(b));
    let t = forest_of(es.filter(weight_at_most(p)), CalculationType::Cost);
    lemma_light_part(es, b);
    lemma_light_part(es, p);
    lemma_filter_fits(es, weight_at_most(b), n);
    assert forall|budget: int|
        #![trigger feasible(kept, n, q, budget)]
        #![trigger feasible(es, n, q, budget)]
        feasible(kept, n, q, budget) <==> feasible(es, n, q, budget) by {
        if feasible(kept, n, q, budget) {
            lemma_more_edges_allow_more(kept, es, n, q, budget);
        }
        if feasible(es, n, q, budget) {
            if q <= b {
                lemma_light_part_keeps_feasibility(kept, es, n, b, q, budget);
            } else {
                // the tree of the pivot costs no more, and lies among the edges kept
                lemma_feasible_grows(es, n, q, p, budget);
                lemma_feasible_has_tree(es, n, p, budget);
                lemma_edges_within_trans(t, es.filter(weight_at_most(p)), es);
                lemma_tree_in_light_part(es, b, t);
                lemma_tree_in_light_part(kept, q, t);
                lemma_feasible_has_tree(kept, n, q, budget);
                assert(is_feasible_tree(kept.filter(weight_at_most(q)), n, budget, t));
            }
        }
    }
}

/// Sets of edges that hold each other's edges have, at every pivot, cheapest spanning
/// trees of the same cost.
pub proof fn lemma_same_edges_same_cheapest(a: Seq<Edge>, b: Seq<Edge>, n: nat, q: int)
    requires
        forall|i: int| 0 <= i < b.len() ==> (#[trigger] b[i]).fits(n),
        n >= 1,
        edges_within(a, b),
        edges_within(b, a),
    ensures
        same_cheapest_at(a, b, n, q),
{
    lemma_light_part_keeps_cheapest(a, b, n, q, q);
}

/// An answer at the least pivot for one set of edges is one for every set of edges
/// whose cheapest spanning trees cost the same at every pivot.
pub proof fn lemma_cheapest_transfer(
    a: Seq<Edge>,
    b: Seq<Edge>,
    nodes: Seq<Node>,
    c: Set<i64>,
    budget: int,
    r: (Option<MutableGraph>, i128, i64),
)
    requires
        forall|q: int| same_cheapest_at(a, b, nodes.len(), q),
        is_cheapest_at_least(a, nodes, c, budget, r),
    ensures
        is_cheapest_at_least(b, nodes, c, budget, r),
{
    let n = nodes.len();
    if r.0 is Some {
        let t = r.0->0;
        let p = choose|p: i64|
            {
                &&& #[trigger] c.contains(p)
                &&& feasible(a, n, p as int, budget)
                &&& forall|i: int| 0 <= i < t.edges@.len() ==> (#[trigger] t.edges@[i]).weight <= p
                &&& forall|q: i64| #[trigger] c.contains(q) && q < p ==> !feasible(a, n, q as int, budget)
                &&& r.1 == forest_sum(a.filter(weight_at_most(p as int)), CalculationType::Cost)
            };
        assert(same_cheapest_at(a, b, n, p as int));
        lemma_same_cheapest_cost(a, b, n, p as int, budget);
        assert forall|q: i64| #[trigger] c.contains(q) && q < p implies !feasible(
            b,
            n,
            q as int,
            budget,
        ) by {
            assert(same_cheapest_at(a, b, n, q as int));
        }
    } else {
        assert forall|q: i64| #[trigger] c.contains(q) implies !feasible(b, n, q as int, budget) by {
            assert(same_cheapest_at(a, b, n, q as int));
        }
    }
}

/// The answer of a search through ascending pivots that has found the first pivot that
/// allows a tree, and the cheapest tree for it: a solution whose weights are that pivot
/// at most, at the cost of the cheapest spanning tree of the edges up to that pivot; or
/// no solution where no pivot allows a tree.
pub open spec fn is_cheapest_at_first(
    es: Seq<Edge>,
    nodes: Seq<Node>,
    ws: Seq<i64>,
    budget: int,
    r: (Option<MutableGraph>, i128, i64),
) -> bool {
    match r.0 {
        Some(t) => exists|k: int|
            {
                &&& 0 <= k < ws.len()
                &&& feasible(es, nodes.len(), #[trigger] ws[k] as int, budget)
                &&& forall|i: int| 0 <= i < t.edges@.len() ==> (#[trigger] t.edges@[i]).weight <= ws[k]
                &&& forall|j: int| 0 <= j < k ==> !feasible(es, nodes.len(), #[trigger] ws[j] as int, budget)
                &&& r.1 == forest_sum(es.filter(weight_at_most(ws[k] as int)), CalculationType::Cost)
            },
        None => forall|j: int|
            0 <= j < ws.len() ==> !feasible(es, nodes.len(), #[trigger] ws[j] as int, budget),
    }
}

/// The answer at the least pivot of a set that allows a tree, at the cost of the
/// cheapest tree for that pivot; or no solution where no pivot allows a tree.
pub open spec fn is_cheapest_at_least(
    es: Seq<Edge>,
    nodes: Seq<Node>,
    c: Set<i64>,
    budget: int,
    r: (Option<MutableGraph>, i128, i64),
) -> bool {
    match r.0 {
        Some(t) => exists|p: i64|
            {
                &&& #[trigger] c.contains(p)
                &&& feasible(es, nodes.len(), p as int, budget)
                &&& forall|i: int| 0 <= i < t.edges@.len() ==> (#[trigger] t.edges@[i]).weight <= p
                &&& forall|q: i64| #[trigger]
                    c.contains(q) && q < p ==> !feasible(es, nodes.len(), q as int, budget)
                &&& r.1 == forest_sum(es.filter(weight_at_most(p as int)), CalculationType::Cost)
            },
        None => forall|q: i64| #[trigger] c.contains(q) ==> !feasible(es, nodes.len(), q as int, budget),
    }
}

/// The first pivot of an ascending list that allows a tree is the least of its pivots
/// that does.
pub proof fn lemma_cheapest_first_is_least(
    es: Seq<Edge>,
    nodes: Seq<Node>,
    ws: Seq<i64>,
    budget: int,
    r: (Option<MutableGraph>, i128, i64),
)
    requires
        crate::algorithms::util::ascending(ws),
        is_cheapest_at_first(es, nodes, ws, budget, r),
    ensures
        is_cheapest_at_least(es, nodes, ws.to_set(), budget, r),
        is_closed_in(es, nodes, ws.to_set(), budget, r),
{
    let c = ws.to_set();
    if r.0 is Some {
        let t = r.0->0;
        let k = choose|k: int|
            {
                &&& 0 <= k < ws.len()
                &&& feasible(es, nodes.len(), #[trigger] ws[k] as int, budget)
                &&& forall|i: int| 0 <= i < t.edges@.len() ==> (#[trigger] t.edges@[i]).weight <= ws[k]
                &&& forall|j: int| 0 <= j < k ==> !feasible(es, nodes.len(), #[trigger] ws[j] as int, budget)
                &&& r.1 == forest_sum(es.filter(weight_at_most(ws[k] as int)), CalculationType::Cost)
            };
        let p = ws[k];
        assert(ws.contains(p));
        assert(c.contains(p));
        assert forall|q: i64| #[trigger] c.contains(q) && q < p implies !feasible(
            es,
            nodes.len(),
            q as int,
            budget,
        ) by {
            assert(ws.contains(q));
            let j = choose|j: int| 0 <= j < ws.len() && ws[j] == q;
            if j > k {
                assert(ws[k] < ws[j]);
            }
        }
    } else {
        assert forall|q: i64| #[trigger] c.contains(q) implies !feasible(
            es,
            nodes.len(),
            q as int,
            budget,
        ) by {
            assert(ws.contains(q));
            let j = choose|j: int| 0 <= j < ws.len() && ws[j] == q;
        }
    }
}

/// An answer that cannot be beaten, at the cost of the cheapest spanning tree of the
/// edges up to some pivot that its weights keep to, is the answer at the least weight of
/// the graph that allows a tree, at the cost of the cheapest tree for that weight.
pub proof fn lemma_best_and_cheapest(
    es: Seq<Edge>,
    nodes: Seq<Node>,
    budget: int,
    p: int,
    r: (Option<MutableGraph>, i128, i64),
)
    requires
        forall|i: int| 0 <= i < es.len() ==> (#[trigger] es[i]).fits(nodes.len()),
        nodes.len() >= 2,
        is_inverted(es),
        is_best_answer(es, nodes, budget, r),
        r.0 matches Some(t) ==> {
            &&& forall|i: int| 0 <= i < t.edges@.len() ==> (#[trigger] t.edges@[i]).weight <= p
            &&& r.1 == forest_sum(es.filter(weight_at_most(p)), CalculationType::Cost)
        },
    ensures
        is_cheapest_at_least(
            es,
            nodes,
            crate::algorithms::util::weights_between(es, NEG_INFINITY as int, 0),
            budget,
            r,
        ),
{
    let n = nodes.len();
    let c = crate::algorithms::util::weights_between(es, NEG_INFINITY as int, 0);
    if r.0 is Some {
        let t = r.0->0.edges@;
        lemma_tree_size(ends_of(t), n);
        lemma_bottleneck_is_a_weight(es, t);
        let b = max_weight(t) as i64;
        assert(c.contains(b));
        assert(is_feasible_tree(es, n, budget, t));
        lemma_tree_makes_feasible(es, n, budget, t, b as int);
        assert forall|i: int| 0 <= i < t.len() implies (#[trigger] t[i]).weight <= b by {
            lemma_max_weight_bounds(t, i);
        }
        assert forall|q: i64| #[trigger] c.contains(q) && q < b implies !feasible(
            es,
            n,
            q as int,
            budget,
        ) by {
            if feasible(es, n, q as int, budget) {
                lemma_feasible_has_tree(es, n, q as int, budget);
                let other = forest_of(es.filter(weight_at_most(q as int)), CalculationType::Cost);
                lemma_light_part(es, q as int);
                lemma_edges_within_trans(other, es.filter(weight_at_most(q as int)), es);
                assert(is_feasible_tree(es, n, budget, other));
                lemma_max_weight_attained(other);
                if max_weight(other) != NEG_INFINITY {
                    let i = choose|i: int|
                        0 <= i < other.len() && (#[trigger] other[i]).weight == max_weight(other);
                    assert(es.filter(weight_at_most(q as int)).contains(other[i]));
                }
                assert(max_weight(other) <= q);
            }
        }
        // the tree is as cheap as the cheapest tree up to the pivot, so the cheapest
        // tree up to its own largest weight costs the same
        let low = forest_sum(es.filter(weight_at_most(b as int)), CalculationType::Cost);
        let high = forest_sum(es.filter(weight_at_most(p)), CalculationType::Cost);
        assert(t[0].weight <= p);
        assert(b <= p) by {
            lemma_max_weight_attained(t);
        }
        assert(feasible(es, n, b as int, low));
        lemma_feasible_grows(es, n, b as int, p, low);
        assert(is_feasible_tree(es, n, high, t));
        lemma_tree_makes_feasible(es, n, high, t, b as int);
    } else {
        assert forall|q: i64| #[trigger] c.contains(q) implies !feasible(es, n, q as int, budget) by {
            if feasible(es, n, q as int, budget) {
                lemma_feasible_has_tree(es, n, q as int, budget);
                let other = forest_of(es.filter(weight_at_most(q as int)), CalculationType::Cost);
                lemma_light_part(es, q as int);
                lemma_edges_within_trans(other, es.filter(weight_at_most(q as int)), es);
                assert(is_feasible_tree(es, n, budget, other));
            }
        }
    }
}

/// Answers at the least pivot that allows a tree, each at the cost of the cheapest tree
/// for that pivot, agree in whether there is a solution and in its cost.
pub proof fn lemma_cheapest_answers_agree(
    es: Seq<Edge>,
    nodes: Seq<Node>,
    c: Set<i64>,
    budget: int,
    r1: (Option<MutableGraph>, i128, i64),
    r2: (Option<MutableGraph>, i128, i64),
)
    requires
        is_answer(es, nodes, budget, r1),
        is_answer(es, nodes, budget, r2),
        is_cheapest_at_least(es, nodes, c, budget, r1),
        is_cheapest_at_least(es, nodes, c, budget, r2),
    ensures
        r1.0 is Some <==> r2.0 is Some,
        r1.1 == r2.1,
{
    if r1.0 is Some && r2.0 is Some {
        let t1 = r1.0->0;
        let t2 = r2.0->0;
        let pivot_a = choose|p: i64|
            {
                &&& #[trigger] c.contains(p)
                &&& feasible(es, nodes.len(), p as int, budget)
                &&& forall|i: int| 0 <= i < t1.edges@.len() ==> (#[trigger] t1.edges@[i]).weight <= p
                &&& forall|q: i64| #[trigger]
                    c.contains(q) && q < p ==> !feasible(es, nodes.len(), q as int, budget)
                &&& r1.1 == forest_sum(es.filter(weight_at_most(p as int)), CalculationType::Cost)
            };
        let pivot_b = choose|p: i64|
            {
                &&& #[trigger] c.contains(p)
                &&& feasible(es, nodes.len(), p as int, budget)
                &&& forall|i: int| 0 <= i < t2.edges@.len() ==> (#[trigger] t2.edges@[i]).weight <= p
                &&& forall|q: i64| #[trigger]
                    c.contains(q) && q < p ==> !feasible(es, nodes.len(), q as int, budget)
                &&& r2.1 == forest_sum(es.filter(weight_at_most(p as int)), CalculationType::Cost)
            };
        assert(pivot_a == pivot_b);
    } else if r1.0 is Some {
        let t1 = r1.0->0;
        let pivot_a = choose|p: i64|
            {
                &&& #[trigger] c.contains(p)
                &&& feasible(es, nodes.len(), p as int, budget)
                &&& forall|i: int| 0 <= i < t1.edges@.len() ==> (#[trigger] t1.edges@[i]).weight <= p
                &&& forall|q: i64| #[trigger]
                    c.contains(q) && q < p ==> !feasible(es, nodes.len(), q as int, budget)
                &&& r1.1 == forest_sum(es.filter(weight_at_most(p as int)), CalculationType::Cost)
            };
        assert(false);
    } else if r2.0 is Some {
        let t2 = r2.0->0;
        let pivot_b = choose|p: i64|
            {
                &&& #[trigger] c.contains(p)
                &&& feasible(es, nodes.len(), p as int, budget)
                &&& forall|i: int| 0 <= i < t2.edges@.len() ==> (#[trigger] t2.edges@[i]).weight <= p
                &&& forall|q: i64| #[trigger]
                    c.contains(q) && q < p ==> !feasible(es, nodes.len(), q as int, budget)
                &&& r2.1 == forest_sum(es.filter(weight_at_most(p as int)), CalculationType::Cost)
            };
        assert(false);
    }
}

/// What a pivot of an ascending list does not allow, no pivot before it allows.
pub proof fn lemma_infeasible_below(es: Seq<Edge>, n: nat, ws: Seq<i64>, k: int, budget: int)
    requires
        forall|i: int| 0 <= i < es.len() ==> (#[trigger] es[i]).fits(n),
        crate::algorithms::util::ascending(ws),
        0 <= k < ws.len(),
        !feasible(es, n, ws[k] as int, budget),
    ensures
        forall|j: int| 0 <= j <= k ==> !feasible(es, n, #[trigger] ws[j] as int, budget),
{
    assert forall|j: int| 0 <= j <= k implies !feasible(es, n, #[trigger] ws[j] as int, budget) by {
        if j < k {
            assert(ws[j] < ws[k]);
        }
        if feasible(es, n, ws[j] as int, budget) {
            lemma_feasible_grows(es, n, ws[j] as int, ws[k] as int, budget);
        }
    }
}

/// A probe of a part of the graph that allows what the graph allows: where it finds a
/// tree, the graph allows one at the pivot, the tree weighs the pivot at most, and the
/// part without the edges above the tree's bottleneck still allows what the graph
/// allows.
pub proof fn lemma_probe_step(
    current: Seq<Edge>,
    start: Seq<Edge>,
    nodes: Seq<Node>,
    pivot: int,
    budget: int,
    t: MutableGraph,
    cost: int,
    bottleneck: int,
)
    requires
        forall|i: int| 0 <= i < current.len() ==> (#[trigger] current[i]).fits(nodes.len()),
        nodes.len() >= 1,
        crate::algorithms::util::all_negative(current),
        same_feasibility(current, start, nodes.len(), budget),
        feasible(current, nodes.len(), pivot, budget),
        crate::algorithms::util::is_probe_result(current, nodes, pivot, t, cost, bottleneck),
    ensures
        feasible(start, nodes.len(), pivot, budget),
        forall|i: int| 0 <= i < t.edges@.len() ==> (#[trigger] t.edges@[i]).weight <= pivot,
        same_feasibility(current.filter(weight_at_most(bottleneck)), start, nodes.len(), budget),
        is_feasible_tree(current, nodes.len(), budget, t.edges@),
{
    let n = nodes.len();
    crate::algorithms::util::lemma_probe_is_solution(current, nodes, pivot, budget, t, cost, bottleneck);
    lemma_light_part(current, pivot);
    assert forall|i: int| 0 <= i < t.edges@.len() implies (#[trigger] t.edges@[i]).weight <= pivot by {
        assert(current.filter(weight_at_most(pivot)).contains(t.edges@[i]));
    }
    assert forall|i: int| 0 <= i < t.edges@.len() implies (#[trigger] t.edges@[i]).weight
        <= bottleneck by {
        lemma_max_weight_bounds(t.edges@, i);
    }
    lemma_restriction_keeps_feasibility(current, n, budget, t.edges@, bottleneck);
    let kept = current.filter(weight_at_most(bottleneck));
    assert forall|p: int|
        #![trigger feasible(kept, n, p, budget)]
        #![trigger feasible(start, n, p, budget)]
        feasible(kept, n, p, budget) <==> feasible(start, n, p, budget) by {
        assert(feasible(kept, n, p, budget) <==> feasible(current, n, p, budget));
    }
}

/// A probe of a part of the graph whose cheapest spanning trees cost what those of the
/// graph cost, up to the pivot: where it finds a tree, the tree costs what the cheapest
/// spanning tree of the graph costs at the pivot, and the part without the edges above
/// the tree's bottleneck still has cheapest spanning trees of the same cost, up to the
/// pivot.
pub proof fn lemma_probe_step_cheapest(
    current: Seq<Edge>,
    start: Seq<Edge>,
    nodes: Seq<Node>,
    pivot: int,
    budget: int,
    t: MutableGraph,
    cost: int,
    bottleneck: int,
)
    requires
        forall|i: int| 0 <= i < current.len() ==> (#[trigger] current[i]).fits(nodes.len()),
        nodes.len() >= 1,
        crate::algorithms::util::all_negative(current),
        forall|q: int| q <= pivot ==> #[trigger] same_cheapest_at(current, start, nodes.len(), q),
        feasible(current, nodes.len(), pivot, budget),
        crate::algorithms::util::is_probe_result(current, nodes, pivot, t, cost, bottleneck),
    ensures
        cost == forest_sum(start.filter(weight_at_most(pivot)), CalculationType::Cost),
        forall|q: int|
            q <= pivot ==> #[trigger] same_cheapest_at(
                current.filter(weight_at_most(bottleneck)),
                start,
                nodes.len(),
                q,
            ),
{
    let n = nodes.len();
    assert(same_cheapest_at(current, start, n, pivot));
    lemma_same_cheapest_cost(current, start, n, pivot, budget);
    crate::algorithms::util::lemma_probe_is_solution(current, nodes, pivot, budget, t, cost, bottleneck);
    assert forall|i: int| 0 <= i < t.edges@.len() implies (#[trigger] t.edges@[i]).weight
        <= bottleneck by {
        lemma_max_weight_bounds(t.edges@, i);
    }
    let kept = current.filter(weight_at_most(bottleneck));
    assert forall|q: int| q <= pivot implies #[trigger] same_cheapest_at(kept, start, n, q) by {
        lemma_restriction_keeps_cheapest(current, n, pivot, bottleneck, q);
        assert(same_cheapest_at(current, start, n, q));
        lemma_same_cheapest_trans(kept, current, start, n, q);
    }
}

/// A solution, or no solution with cost and bottleneck 0, answers the problem.
pub proof fn lemma_probe_answer_is_answer(
    es: Seq<Edge>,
    nodes: Seq<Node>,
    budget: int,
    r: (Option<MutableGraph>, i128, i64),
)
    requires
        match r.0 {
            Some(t) => is_solution(es, nodes, budget, t, r.1 as int, r.2 as int),
            None => r.1 == 0 && r.2 == 0,
        },
    ensures
        is_answer(es, nodes, budget, r),
{
}

/// Answers that cannot be beaten agree: on a graph of two nodes or more with weights
/// below zero, two of them either both hold no solution or hold solutions with the same
/// bottleneck. The searches of Berman and of Punnen and the fast edge elimination give
/// such answers on inverted weights, and so do the other edge eliminations where every
/// upgraded edge has a free twin, so they agree.
pub proof fn lemma_best_answers_agree(
    es: Seq<Edge>,
    nodes: Seq<Node>,
    budget: int,
    r1: (Option<MutableGraph>, i128, i64),
    r2: (Option<MutableGraph>, i128, i64),
)
    requires
        nodes.len() >= 2,
        crate::algorithms::util::all_negative(es),
        is_best_answer(es, nodes, budget, r1),
        is_best_answer(es, nodes, budget, r2),
    ensures
        r1.0 is Some <==> r2.0 is Some,
        r1.2 == r2.2,
{
    let n = nodes.len();
    if r1.0 is Some {
        let t1 = r1.0->0.edges@;
        assert(is_feasible_tree(es, n, budget, t1));
        if r2.0 is Some {
            let t2 = r2.0->0.edges@;
            assert(is_feasible_tree(es, n, budget, t2));
            lemma_best_trees_agree(es, n, budget, t1, t2);
        }
    } else if r2.0 is Some {
        let t2 = r2.0->0.edges@;
        assert(is_feasible_tree(es, n, budget, t2));
    }
}

/// The three searches agree. On a graph of two nodes or more with weights below zero,
/// answers that cannot be beaten, each at the least pivot that allows a tree and at the
/// cost of the cheapest tree for that pivot, hold a solution together or not at all,
/// and their solutions have the same bottleneck and the same cost. The searches of
/// Berman and the fast edge elimination give such answers on inverted weights; the edge
/// elimination between two bounds gives them on a graph with both copies of every
/// edge; the search of Punnen gives them where the whole graph costs more than the
/// budget, and so does the edge elimination with two probes where every upgraded edge
/// has a free twin.
pub proof fn lemma_solvers_agree(
    es: Seq<Edge>,
    nodes: Seq<Node>,
    budget: int,
    c: Set<i64>,
    berman: (Option<MutableGraph>, i128, i64),
    punnen: (Option<MutableGraph>, i128, i64),
    elimination: (Option<MutableGraph>, i128, i64),
)
    requires
        nodes.len() >= 2,
        crate::algorithms::util::all_negative(es),
        is_best_answer(es, nodes, budget, berman),
        is_best_answer(es, nodes, budget, punnen),
        is_best_answer(es, nodes, budget, elimination),
        is_cheapest_at_least(es, nodes, c, budget, berman),
        is_cheapest_at_least(es, nodes, c, budget, punnen),
        is_cheapest_at_least(es, nodes, c, budget, elimination),
    ensures
        berman.0 is Some <==> punnen.0 is Some,
        berman.0 is Some <==> elimination.0 is Some,
        berman.2 == punnen.2,
        berman.2 == elimination.2,
        berman.1 == punnen.1,
        berman.1 == elimination.1,
{
    lemma_best_answers_agree(es, nodes, budget, berman, punnen);
    lemma_best_answers_agree(es, nodes, budget, berman, elimination);
    lemma_cheapest_answers_agree(es, nodes, c, budget, berman, punnen);
    lemma_cheapest_answers_agree(es, nodes, c, budget, berman, elimination);
}

/// The bottleneck falls as the budget grows: on a graph of two nodes or more with
/// weights below zero, an answer that cannot be beaten for a larger budget has a
/// bottleneck that is no larger than that of one for a smaller budget.
pub proof fn lemma_bottleneck_falls_with_budget(
    es: Seq<Edge>,
    nodes: Seq<Node>,
    budget1: int,
    budget2: int,
    r1: (Option<MutableGraph>, i128, i64),
    r2: (Option<MutableGraph>, i128, i64),
)
    requires
        nodes.len() >= 2,
        crate::algorithms::util::all_negative(es),
        budget1 <= budget2,
        is_best_answer(es, nodes, budget1, r1),
        is_best_answer(es, nodes, budget2, r2),
    ensures
        r1.2 >= r2.2,
        r1.0 is Some ==> r2.0 is Some,
{
    let n = nodes.len();
    if r1.0 is Some {
        let t1 = r1.0->0.edges@;
        assert(is_feasible_tree(es, n, budget1, t1));
        assert(is_feasible_tree(es, n, budget2, t1));
    } else if r2.0 is Some {
        let t2 = r2.0->0.edges@;
        crate::algorithms::util::lemma_all_negative_within(t2, es);
        lemma_max_weight_attained(t2);
        lemma_max_weight_bounds(t2, 0);
        if max_weight(t2) != NEG_INFINITY {
            let i = choose|i: int| 0 <= i < t2.len() && (#[trigger] t2[i]).weight == max_weight(t2);
        }
    }
}

/// A sum of costs that are not negative is not negative.
pub proof fn lemma_cost_sum_not_negative(t: Seq<Edge>)
    requires
        forall|j: int| 0 <= j < t.len() ==> (#[trigger] t[j]).cost >= 0,
    ensures
        cost_sum(t) >= 0,
    decreases t.len(),
{
    if t.len() > 0 {
        let rest = t.drop_last();
        assert forall|j: int| 0 <= j < rest.len() implies (#[trigger] rest[j]).cost >= 0 by {
            assert(rest[j] == t[j]);
        }
        lemma_cost_sum_not_negative(rest);
        assert(t[t.len() - 1].cost >= 0);
        assert(cost_sum(t) == cost_sum(rest) + t.last().cost);
    }
}

/// A sum of costs that are not negative is no smaller than any of them.
pub proof fn lemma_cost_sum_bounds(t: Seq<Edge>, i: int)
    requires
        forall|j: int| 0 <= j < t.len() ==> (#[trigger] t[j]).cost >= 0,
        0 <= i < t.len(),
    ensures
        0 <= t[i].cost <= cost_sum(t),
    decreases t.len(),
{
    let rest = t.drop_last();
    assert forall|j: int| 0 <= j < rest.len() implies (#[trigger] rest[j]).cost >= 0 by {
        assert(rest[j] == t[j]);
    }
    assert(t[t.len() - 1].cost >= 0);
    assert(cost_sum(t) == cost_sum(rest) + t.last().cost);
    lemma_cost_sum_not_negative(rest);
    if i < t.len() - 1 {
        lemma_cost_sum_bounds(rest, i);
        assert(rest[i] == t[i]);
    }
}

/// The sum of the costs with one edge taken out.
pub proof fn lemma_cost_sum_remove(t: Seq<Edge>, i: int)
    requires
        0 <= i < t.len(),
    ensures
        cost_sum(t) == cost_sum(t.remove(i)) + t[i].cost,
    decreases t.len(),
{
    if i == t.len() - 1 {
        assert(t.remove(i) =~= t.drop_last());
    } else {
        lemma_cost_sum_remove(t.drop_last(), i);
        assert(t.remove(i).drop_last() =~= t.drop_last().remove(i));
        assert(t.remove(i).last() == t.last());
    }
}

/// Edges picked from a graph, none twice, cost no more than the whole graph.
pub proof fn lemma_part_costs_less(t: Seq<Edge>, es: Seq<Edge>)
    requires
        t.no_duplicates(),
        edges_within(t, es),
        forall|j: int| 0 <= j < es.len() ==> (#[trigger] es[j]).cost >= 0,
    ensures
        cost_sum(t) <= cost_sum(es),
    decreases es.len(),
{
    if es.len() == 0 {
        if t.len() > 0 {
            assert(es.contains(t[0]));
        }
    } else {
        let x = es.last();
        let rest = es.drop_last();
        assert(x.cost >= 0) by {
            assert(es[es.len() - 1].cost >= 0);
        }
        assert forall|j: int| 0 <= j < rest.len() implies (#[trigger] rest[j]).cost >= 0 by {
            assert(rest[j] == es[j]);
        }
        if t.contains(x) {
            let i = choose|i: int| 0 <= i < t.len() && t[i] == x;
            let others = t.remove(i);
            lemma_cost_sum_remove(t, i);
            assert(others.no_duplicates()) by {
                assert forall|a: int, b: int|
                    0 <= a < others.len() && 0 <= b < others.len() && a != b implies others[a]
                    != others[b] by {
                    let a2 = if a < i {
                        a
                    } else {
                        a + 1
                    };
                    let b2 = if b < i {
                        b
                    } else {
                        b + 1
                    };
                    assert(others[a] == t[a2] && others[b] == t[b2]);
                }
            }
            assert(edges_within(others, rest)) by {
                assert forall|a: int| 0 <= a < others.len() implies rest.contains(
                    #[trigger] others[a],
                ) by {
                    let a2 = if a < i {
                        a
                    } else {
                        a + 1
                    };
                    assert(others[a] == t[a2]);
                    assert(t[a2] != t[i]);
                    assert(es.contains(t[a2]));
                    let j = choose|j: int| 0 <= j < es.len() && es[j] == t[a2];
                    assert(rest[j] == t[a2]);
                }
            }
            lemma_part_costs_less(others, rest);
        } else {
            assert(edges_within(t, rest)) by {
                assert forall|a: int| 0 <= a < t.len() implies rest.contains(#[trigger] t[a]) by {
                    assert(es.contains(t[a]));
                    let j = choose|j: int| 0 <= j < es.len() && es[j] == t[a];
                    assert(t.contains(t[a]));
                    assert(rest[j] == t[a]);
                }
            }
            lemma_part_costs_less(t, rest);
        }
    }
}

/// A spanning tree of a graph with costs that are not negative costs no more than the
/// whole graph.
pub proof fn lemma_tree_costs_less(t: Seq<Edge>, es: Seq<Edge>, n: nat)
    requires
        forall|i: int| 0 <= i < es.len() ==> (#[trigger] es[i]).fits(n),
        edges_within(t, es),
        crate::datastructures::graph::connectivity::acyclic(ends_of(t)),
    ensures
        cost_sum(t) <= cost_sum(es),
{
    crate::algorithms::min_sum_spanning_tree::cheapest::lemma_acyclic_distinct(t);
    lemma_part_costs_less(t, es);
}

/// With a budget of zero a spanning tree within the budget is made of edges without
/// cost: of edges that are not upgraded, where every upgrade costs.
pub proof fn lemma_zero_budget(es: Seq<Edge>, n: nat, t: Seq<Edge>)
    requires
        forall|i: int| 0 <= i < es.len() ==> (#[trigger] es[i]).fits(n),
        is_feasible_tree(es, n, 0, t),
    ensures
        forall|i: int| 0 <= i < t.len() ==> (#[trigger] t[i]).cost == 0,
{
    crate::algorithms::util::lemma_within_fits(t, es, n);
    assert forall|i: int| 0 <= i < t.len() implies (#[trigger] t[i]).cost == 0 by {
        lemma_cost_sum_bounds(t, i);
    }
}

/// Two spanning trees within the budget of which none can be beaten have the same
/// largest weight: answers that are best agree in their bottleneck.
pub proof fn lemma_best_trees_agree(es: Seq<Edge>, n: nat, budget: int, t1: Seq<Edge>, t2: Seq<Edge>)
    requires
        is_feasible_tree(es, n, budget, t1),
        is_feasible_tree(es, n, budget, t2),
        is_best(es, n, budget, t1),
        is_best(es, n, budget, t2),
    ensures
        max_weight(t1) == max_weight(t2),
{
}

} // verus!
