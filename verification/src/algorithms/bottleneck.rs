use crate::algorithms::util::edges_within;
use crate::datastructures::graph::connectivity::{absorbed, connected, lemma_absorbed_reach, spans};
use crate::datastructures::graph::edge::{ends_of, max_weight, Edge, NEG_INFINITY};
use vstd::prelude::*;

verus! {

/// Some edge of `es` weighs `w` at least.
pub open spec fn reaches(es: Seq<Edge>, w: int) -> bool {
    exists|i: int| 0 <= i < es.len() && (#[trigger] es[i]).weight >= w
}

/// Every set of edges of the graph that spans the nodes holds an edge that weighs `w`
/// at least: no spanning tree has a bottleneck below `w`.
pub open spec fn is_lower_bound(arena: Seq<Edge>, n: nat, w: int) -> bool {
    forall|t: Seq<Edge>| #[trigger]
        edges_within(t, arena) && spans(ends_of(t), n) ==> reaches(t, w)
}

/// Every edge of `es` weighs as little as some edge of every spanning set must weigh.
pub open spec fn all_lower_bounds(arena: Seq<Edge>, n: nat, es: Seq<Edge>) -> bool {
    forall|i: int| 0 <= i < es.len() ==> is_lower_bound(arena, n, (#[trigger] es[i]).weight as int)
}

/// No spanning set of edges of the graph has a largest weight below that of `tree`.
pub open spec fn has_least_bottleneck(arena: Seq<Edge>, n: nat, tree: Seq<Edge>) -> bool {
    forall|t: Seq<Edge>| #[trigger]
        edges_within(t, arena) && spans(ends_of(t), n) ==> max_weight(tree) <= max_weight(t)
}

/// The largest weight is no smaller than any weight.
pub proof fn lemma_max_weight_bounds(es: Seq<Edge>, i: int)
    requires
        0 <= i < es.len(),
    ensures
        es[i].weight <= max_weight(es),
        NEG_INFINITY <= max_weight(es),
    decreases es.len(),
{
    if i < es.len() - 1 {
        lemma_max_weight_bounds(es.drop_last(), i);
    } else if es.len() > 1 {
        lemma_max_weight_bounds(es.drop_last(), 0);
    } else {
        assert(es.drop_last().len() == 0);
        assert(max_weight(es.drop_last()) == NEG_INFINITY);
    }
}

/// The largest weight is not below what stands for no weight.
pub proof fn lemma_max_weight_floor(es: Seq<Edge>)
    ensures
        NEG_INFINITY <= max_weight(es),
    decreases es.len(),
{
    if es.len() > 0 {
        lemma_max_weight_floor(es.drop_last());
    }
}

/// The largest weight is the weight of an edge, or stands for no weight at all.
pub proof fn lemma_max_weight_attained(es: Seq<Edge>)
    ensures
        max_weight(es) == NEG_INFINITY || exists|i: int|
            0 <= i < es.len() && (#[trigger] es[i]).weight == max_weight(es),
    decreases es.len(),
{
    if es.len() > 0 {
        lemma_max_weight_attained(es.drop_last());
        if es.last().weight > max_weight(es.drop_last()) {
            assert(es[es.len() - 1].weight == max_weight(es));
        } else if max_weight(es.drop_last()) != NEG_INFINITY {
            let i = choose|i: int|
                0 <= i < es.drop_last().len() && (#[trigger] es.drop_last()[i]).weight == max_weight(
                    es.drop_last(),
                );
            assert(es[i].weight == max_weight(es));
        }
    }
}

/// A tree whose weights are all lower bounds has the least bottleneck.
pub proof fn lemma_least_bottleneck(arena: Seq<Edge>, n: nat, tree: Seq<Edge>)
    requires
        all_lower_bounds(arena, n, tree),
    ensures
        has_least_bottleneck(arena, n, tree),
{
    assert forall|t: Seq<Edge>| #[trigger]
        edges_within(t, arena) && spans(ends_of(t), n) implies max_weight(tree) <= max_weight(t) by {
        lemma_max_weight_attained(tree);
        if t.len() > 0 {
            lemma_max_weight_bounds(t, 0);
        }
        if max_weight(tree) != NEG_INFINITY {
            let i = choose|i: int|
                0 <= i < tree.len() && (#[trigger] tree[i]).weight == max_weight(tree);
            assert(is_lower_bound(arena, n, tree[i].weight as int));
            assert(reaches(t, tree[i].weight as int));
            let j = choose|j: int| 0 <= j < t.len() && (#[trigger] t[j]).weight >= tree[i].weight;
            lemma_max_weight_bounds(t, j);
        }
    }
}

/// Where every edge of a spanning set has its ends connected by `es`, `es` spans too.
pub proof fn lemma_absorbed_spans(t: Seq<(int, int)>, es: Seq<(int, int)>, n: nat)
    requires
        absorbed(t, es),
        spans(t, n),
    ensures
        spans(es, n),
{
    assert forall|a: int, b: int| 0 <= a < n && 0 <= b < n implies #[trigger] connected(es, a, b) by {
        assert(connected(t, a, b));
        lemma_absorbed_reach(t, es, a, b);
    }
}

} // verus!
