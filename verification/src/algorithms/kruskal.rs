use crate::algorithms::min_sum_spanning_tree::kruskal::{
    forest_of, forest_sum, is_cut_optimal, key, sorted_edges, INFINITE_SUM,
};
use crate::datastructures::graph::connectivity::{is_spanning_tree, spans};
use crate::datastructures::graph::edge::{ends_of, Edge, INFINITY};
use crate::datastructures::graph::immutable_graph::ImmutableGraph;
use vstd::prelude::*;

verus! {

/// What a spanning tree is to be cheapest in.
#[derive(Debug, Clone, Copy, PartialEq, Eq, Structural)]
pub enum CalculationType {
    Cost,
    Weight,
}

impl CalculationType {
    /// The same choice, as the scan of the edges takes it.
    pub open spec fn scanned(self) -> crate::algorithms::min_sum_spanning_tree::kruskal::CalculationType {
        match self {
            CalculationType::Cost => crate::algorithms::min_sum_spanning_tree::kruskal::CalculationType::Cost,
            CalculationType::Weight => crate::algorithms::min_sum_spanning_tree::kruskal::CalculationType::Weight,
        }
    }

    /// The same choice, as the scan of the edges takes it.
    pub fn as_scanned(&self) -> (r: crate::algorithms::min_sum_spanning_tree::kruskal::CalculationType)
        ensures
            r == self.scanned(),
    {
        match self {
            CalculationType::Cost => crate::algorithms::min_sum_spanning_tree::kruskal::CalculationType::Cost,
            CalculationType::Weight => crate::algorithms::min_sum_spanning_tree::kruskal::CalculationType::Weight,
        }
    }
}

/// The smallest key, and `INFINITY` where there is no edge.
pub open spec fn min_key(es: Seq<Edge>, c: CalculationType) -> int
    decreases es.len(),
{
    if es.len() == 0 {
        INFINITY as int
    } else if key(es.last(), c.scanned()) < min_key(es.drop_last(), c) {
        key(es.last(), c.scanned())
    } else {
        min_key(es.drop_last(), c)
    }
}

/// What the search for a spanning tree of least key sum hands back and leaves: the
/// edges of the graph in scanning order; the forest that a scan collects with the sum of
/// its keys and its smallest key, where the graph is connected; and no tree, with an
/// infinite sum and bottleneck, where it is not.
pub open spec fn is_kruskal_result(
    before: ImmutableGraph,
    after: ImmutableGraph,
    c: CalculationType,
    r: (Option<ImmutableGraph>, i128, i64),
) -> bool {
    &&& after.graph.nodes == before.graph.nodes
    &&& after.graph.edges@ == sorted_edges(before.graph.edges@, c.scanned())
    &&& after.wf()
    &&& r.0 is Some <==> spans(ends_of(before.graph.edges@), before.order())
    &&& r.0 matches Some(t) ==> {
        &&& t.wf()
        &&& t.graph.nodes@ == before.graph.nodes@
        &&& t.graph.edges@ == forest_of(before.graph.edges@, c.scanned())
        &&& r.1 == forest_sum(before.graph.edges@, c.scanned())
        &&& r.2 == min_key(t.graph.edges@, c)
        &&& before.order() >= 1 ==> is_spanning_tree(ends_of(t.graph.edges@), before.order())
    }
    &&& r.0 is None ==> r.1 == INFINITE_SUM && r.2 == INFINITY
}

/// The search for a spanning tree of least key sum on a graph whose edges stay as they
/// are. Its bottleneck is the smallest key of the tree.
pub struct Kruskal();

impl Kruskal {
    /// A spanning tree of least key sum, with that sum and the smallest key of the tree.
    /// Where the graph is not connected there is no tree, and sum and bottleneck are
    /// infinite. The graph's edges are left in scanning order.
    pub fn run(graph: &mut ImmutableGraph, calculation_type: CalculationType) -> (r: (
        Option<ImmutableGraph>,
        i128,
        i64,
    ))
        requires
            old(graph).wf(),
        ensures
            is_kruskal_result(*old(graph), *final(graph), calculation_type, r),
    {
        let c = calculation_type.as_scanned();
        let (st, weight, _) = crate::algorithms::min_sum_spanning_tree::kruskal::Kruskal::run(
            &mut graph.graph,
            c,
        );
        match st {
            None => (None, INFINITE_SUM, INFINITY),
            Some(t) => {
                let mut bottleneck: i64 = INFINITY;
                let mut i: usize = 0;
                while i < t.edges.len()
                    invariant
                        i <= t.edges@.len(),
                        c == calculation_type.scanned(),
                        bottleneck == min_key(t.edges@.take(i as int), calculation_type),
                    decreases t.edges@.len() - i,
                {
                    proof {
                        assert(t.edges@.take(i + 1).drop_last() =~= t.edges@.take(i as int));
                    }
                    let k = crate::algorithms::min_sum_spanning_tree::kruskal::Kruskal::key_of(
                        &t.edges[i],
                        &c,
                    );
                    if k < bottleneck {
                        bottleneck = k;
                    }
                    i = i + 1;
                }
                proof {
                    assert(t.edges@.take(i as int) =~= t.edges@);
                }
                (Some(ImmutableGraph { graph: t }), weight, bottleneck)
            },
        }
    }

    /// Whether `st` passes for a cheapest spanning forest of its own edges with the key
    /// sum `weight`: it is empty, or its keys add up to `weight`, it has no cycle, and
    /// none of its edges undercuts another.
    pub fn check_optimality(st: &ImmutableGraph, weight: i128, calculation_type: CalculationType) -> (r:
        bool)
        requires
            st.wf(),
        ensures
            r == is_cut_optimal(
                st.graph.edges@,
                st.graph.edges@,
                weight as int,
                calculation_type.scanned(),
            ),
    {
        crate::algorithms::min_sum_spanning_tree::kruskal::Kruskal::check_optimality(
            &st.graph,
            &st.graph,
            weight,
            calculation_type.as_scanned(),
        )
    }
}

} // verus!
