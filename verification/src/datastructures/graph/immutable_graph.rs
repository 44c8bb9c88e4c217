use crate::algorithms::kruskal::{is_kruskal_result, CalculationType, Kruskal};
use crate::algorithms::min_bottleneck_spanning_tree::camerini::{is_mbst_result, MBST};
use crate::datastructures::graph::connectivity::is_spanning_tree;
use crate::datastructures::graph::edge::{cost_sum, ends_of, weight_sum, Edge};
use crate::datastructures::graph::mutable_graph::{
    is_incident, weight_above, weight_at_most, MutableGraph,
};
use crate::datastructures::graph::node::Node;
use vstd::pervasive::unreached;
use vstd::prelude::*;

verus! {

/// Every edge anew between its ends, with the sign of its weight and of its upgraded
/// weight changed, at its cost.
pub open spec fn negated(es: Seq<Edge>) -> Seq<Edge> {
    Seq::new(
        es.len(),
        |i: int|
            Edge {
                either: es[i].either,
                other: es[i].other,
                weight: (-es[i].weight) as i64,
                upgraded_weight: (-es[i].upgraded_weight) as i64,
                cost: es[i].cost,
                or_either: es[i].either,
                or_other: es[i].other,
                or_weight: 0,
                upgraded: false,
            },
    )
}

/// A graph whose edges stay as they are: the algorithms change their order only.
pub struct ImmutableGraph {
    pub graph: MutableGraph,
}

impl ImmutableGraph {
    /// The number of nodes.
    pub open spec fn order(&self) -> nat {
        self.graph.order()
    }

    /// Every edge joins nodes of the graph at a cost that is not negative, and the nodes
    /// can be counted in an `i32`.
    pub open spec fn wf(&self) -> bool {
        self.graph.wf()
    }

    pub fn new(nodes: Vec<Node>, edges: Vec<Edge>) -> (r: ImmutableGraph)
        ensures
            r.graph.nodes == nodes,
            r.graph.edges == edges,
    {
        ImmutableGraph { graph: MutableGraph::new(nodes, edges) }
    }

    /// A spanning tree of least key sum, as `Kruskal::run` finds it.
    pub fn min_sum_st(&mut self, calculation_type: CalculationType) -> (r: (
        Option<ImmutableGraph>,
        i128,
        i64,
    ))
        requires
            old(self).wf(),
        ensures
            is_kruskal_result(*old(self), *final(self), calculation_type, r),
    {
        Kruskal::run(self, calculation_type)
    }

    /// A spanning tree of least bottleneck, as `MBST::run` finds it.
    pub fn min_bot_st(&mut self) -> (r: (Option<ImmutableGraph>, i64))
        requires
            old(self).wf(),
        ensures
            *final(self) == *old(self),
            r.0 matches Some(t) && is_mbst_result(old(self).graph, (Some(t.graph), r.1)),
    {
        let (st, bottleneck) = MBST::run(&mut self.graph);
        match st {
            Some(t) => (Some(ImmutableGraph { graph: t }), bottleneck),
            None => unreached(),
        }
    }

    pub fn nodes(&self) -> (r: &Vec<Node>)
        ensures
            r == &self.graph.nodes,
    {
        &self.graph.nodes
    }

    pub fn edges(&self) -> (r: &Vec<Edge>)
        ensures
            r == &self.graph.edges,
    {
        &self.graph.edges
    }

    pub fn edges_mut(&mut self) -> (r: &mut Vec<Edge>)
        ensures
            *r == old(self).graph.edges,
            final(self).graph.edges == *final(r),
            final(self).graph.nodes == old(self).graph.nodes,
    {
        &mut self.graph.edges
    }

    pub fn edges_copy(&self) -> (r: Vec<Edge>)
        ensures
            r@ == self.graph.edges@,
    {
        self.graph.edges_copy()
    }

    pub fn nodes_copy(&self) -> (r: Vec<Node>)
        ensures
            r@ == self.graph.nodes@,
    {
        self.graph.nodes_copy()
    }

    /// The first node with the id `id`.
    pub fn get_node(&self, id: usize) -> (r: Option<&Node>)
        ensures
            match r {
                Some(node) => exists|i: int|
                    {
                        &&& 0 <= i < self.graph.nodes@.len()
                        &&& *node == #[trigger] self.graph.nodes@[i]
                        &&& node.id == id
                        &&& forall|j: int| 0 <= j < i ==> (#[trigger] self.graph.nodes@[j]).id != id
                    },
                None => forall|j: int|
                    0 <= j < self.graph.nodes@.len() ==> (#[trigger] self.graph.nodes@[j]).id != id,
            },
    {
        let mut i: usize = 0;
        while i < self.graph.nodes.len()
            invariant
                i <= self.graph.nodes@.len(),
                forall|j: int| 0 <= j < i ==> (#[trigger] self.graph.nodes@[j]).id != id,
            decreases self.graph.nodes@.len() - i,
        {
            if self.graph.nodes[i].id() == id {
                return Some(&self.graph.nodes[i]);
            }
            i = i + 1;
        }
        None
    }

    /// The graph on the same nodes with the edges that weigh `weight` at most, in their
    /// order.
    pub fn get_edges_weight_lower_or_eq_than(&self, weight: i64) -> (r: ImmutableGraph)
        ensures
            r.graph.nodes@ == self.graph.nodes@,
            r.graph.edges@ == self.graph.edges@.filter(weight_at_most(weight as int)),
    {
        ImmutableGraph { graph: self.graph.smaller_or_eq_than(weight) }
    }

    /// The graph on the same nodes with the edges that weigh more than `weight`, in
    /// their order.
    pub fn get_edges_weight_bigger_than(&self, weight: i64) -> (r: ImmutableGraph)
        ensures
            r.graph.nodes@ == self.graph.nodes@,
            r.graph.edges@ == self.graph.edges@.filter(weight_above(weight as int)),
    {
        ImmutableGraph { graph: self.graph.bigger_than(weight) }
    }

    /// Whether the edges are a spanning tree of the nodes.
    pub fn is_spanning_tree(&self) -> (r: bool)
        requires
            self.wf(),
        ensures
            r == is_spanning_tree(ends_of(self.graph.edges@), self.order()),
    {
        self.graph.is_spanning_tree()
    }

    /// The edges that have the node `node_id` as an end, in their order.
    pub fn get_edges_by_node(&self, node_id: usize) -> (r: Vec<Edge>)
        ensures
            r@ == self.graph.edges@.filter(is_incident(node_id as int)),
    {
        self.graph.adj_edges(node_id)
    }

    /// The sum of the weights of all edges.
    pub fn calculate_total_weight(&self) -> (r: i128)
        ensures
            r == weight_sum(self.graph.edges@),
    {
        let mut sum: i128 = 0;
        let mut i: usize = 0;
        while i < self.graph.edges.len()
            invariant
                i <= self.graph.edges@.len(),
                sum == weight_sum(self.graph.edges@.take(i as int)),
                -(i * 0x8000_0000_0000_0000) <= sum <= i * 0x7fff_ffff_ffff_ffff,
            decreases self.graph.edges@.len() - i,
        {
            proof {
                assert(self.graph.edges@.take(i + 1).drop_last() =~= self.graph.edges@.take(i as int));
            }
            sum = sum + self.graph.edges[i].get_weight() as i128;
            i = i + 1;
        }
        proof {
            assert(self.graph.edges@.take(i as int) =~= self.graph.edges@);
        }
        sum
    }

    /// The sum of the costs of all edges.
    pub fn calculate_total_cost(&self) -> (r: i128)
        ensures
            r == cost_sum(self.graph.edges@),
    {
        self.graph.calculate_total_cost()
    }

    /// The graph on the same nodes with every edge made anew between its ends, with the
    /// sign of its weight and of its upgraded weight changed, at its cost.
    pub fn negative_weights(&self) -> (r: ImmutableGraph)
        requires
            forall|i: int|
                0 <= i < self.graph.edges@.len() ==> (#[trigger] self.graph.edges@[i]).invertible(),
        ensures
            r.graph.nodes@ == self.graph.nodes@,
            r.graph.edges@ == negated(self.graph.edges@),
    {
        let mut res_edges: Vec<Edge> = Vec::new();
        let mut i: usize = 0;
        while i < self.graph.edges.len()
            invariant
                i <= self.graph.edges@.len(),
                res_edges@.len() == i,
                forall|k: int| 0 <= k < i ==> #[trigger] res_edges@[k] == negated(self.graph.edges@)[k],
                forall|k: int|
                    0 <= k < self.graph.edges@.len() ==> (
                    #[trigger] self.graph.edges@[k]).invertible(),
            decreases self.graph.edges@.len() - i,
        {
            let edge = self.graph.edges[i];
            assert(edge.invertible());
            let (v, w) = edge.endpoints();
            res_edges.push(
                Edge::new(v, w).weight(-edge.get_weight()).upgraded_weight(
                    -edge.get_upgraded_weight(),
                ).cost(edge.get_cost()),
            );
            i = i + 1;
        }
        proof {
            assert(res_edges@ =~= negated(self.graph.edges@));
        }
        ImmutableGraph::new(self.graph.nodes_copy(), res_edges)
    }
}

} // verus!
