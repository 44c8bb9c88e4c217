use crate::algorithms::min_bottleneck_spanning_tree::camerini::{is_mbst_result, MBST};
use crate::algorithms::min_sum_spanning_tree::kruskal::{
    forest_bottleneck, forest_of, forest_sum, sorted_edges, CalculationType, ConnectionType,
    Kruskal, INFINITE_SUM,
};
use crate::datastructures::graph::connectivity::{
    acyclic, agrees, is_spanning_tree, lemma_acyclic_count, lemma_agrees_spans, lemma_labelling,
    lemma_push_keeps_acyclic, lemma_union_agrees, spans, within,
};
use crate::datastructures::graph::edge::{cost_sum, ends_of, Edge, INFINITY, NEG_INFINITY};
use crate::datastructures::graph::node::Node;
use crate::datastructures::uf::union_find::{lemma_united_count, representatives, UF};
use crate::error::InvalidInput;
use vstd::pervasive::unreached;
use vstd::prelude::*;

verus! {

/// Whether an edge weighs `w` at most.
pub open spec fn weight_at_most(w: int) -> spec_fn(Edge) -> bool {
    |e: Edge| e.weight <= w
}

/// Whether an edge weighs more than `w`.
pub open spec fn weight_above(w: int) -> spec_fn(Edge) -> bool {
    |e: Edge| e.weight > w
}

/// Whether an edge has the node `v` as one of its ends.
pub open spec fn is_incident(v: int) -> spec_fn(Edge) -> bool {
    |e: Edge| e.either == v || e.other == v
}

/// Whether an edge has a cost above zero.
pub open spec fn has_cost() -> spec_fn(Edge) -> bool {
    |e: Edge| e.cost > 0
}

/// Every edge with the sign of its weight and of its upgraded weight changed.
pub open spec fn inverted(es: Seq<Edge>) -> Seq<Edge> {
    Seq::new(
        es.len(),
        |i: int|
            Edge {
                weight: (-es[i].weight) as i64,
                upgraded_weight: (-es[i].upgraded_weight) as i64,
                ..es[i]
            },
    )
}

/// What is wrong with an edge as an instance gives it, for a graph of `n` nodes: the
/// first of an endpoint that is no node, equal ends, a cost below zero, a weight that is
/// not finite, and an upgraded weight above the weight.
pub open spec fn edge_fault(e: Edge, n: nat) -> Option<InvalidInput> {
    if e.either >= n || e.other >= n {
        Some(InvalidInput::Endpoint)
    } else if e.either == e.other {
        Some(InvalidInput::SelfLoop)
    } else if e.cost < 0 {
        Some(InvalidInput::NegativeCost)
    } else if !(NEG_INFINITY < e.weight < INFINITY && NEG_INFINITY < e.upgraded_weight < INFINITY) {
        Some(InvalidInput::Magnitude)
    } else if e.upgraded_weight > e.weight {
        Some(InvalidInput::UpgradeOrder)
    } else {
        None
    }
}

/// What is wrong with the first `k` nodes: one of them does not carry its place as
/// its id.
pub open spec fn nodes_fault(nodes: Seq<Node>, k: int) -> Option<InvalidInput> {
    if exists|i: int| 0 <= i < k && (#[trigger] nodes[i]).id != i {
        Some(InvalidInput::NodeId)
    } else {
        None
    }
}

/// What is wrong with the first edge that has a fault, among the first `k` edges.
pub open spec fn edges_fault(es: Seq<Edge>, n: nat, k: int) -> Option<InvalidInput>
    decreases k,
{
    if k <= 0 {
        None
    } else if edges_fault(es, n, k - 1) is Some {
        edges_fault(es, n, k - 1)
    } else {
        edge_fault(es[k - 1], n)
    }
}

/// What is wrong with a graph as an instance gives it: too many nodes to count, else a
/// node with a wrong id, else the fault of the first edge that has one.
pub open spec fn input_fault(graph: MutableGraph) -> Option<InvalidInput> {
    if graph.nodes@.len() > i32::MAX {
        Some(InvalidInput::NegativeSize)
    } else if nodes_fault(graph.nodes@, graph.nodes@.len() as int) is Some {
        nodes_fault(graph.nodes@, graph.nodes@.len() as int)
    } else {
        edges_fault(graph.edges@, graph.nodes@.len(), graph.edges@.len() as int)
    }
}

/// Edges without a fault join nodes of the graph and can change the sign of their
/// weights.
pub proof fn lemma_no_fault(es: Seq<Edge>, n: nat, k: int)
    requires
        0 <= k <= es.len(),
        edges_fault(es, n, k) is None,
    ensures
        forall|i: int| 0 <= i < k ==> (#[trigger] es[i]).fits(n) && es[i].invertible(),
        forall|i: int| 0 <= i < k ==> edge_fault(#[trigger] es[i], n) is None,
    decreases k,
{
    if k > 0 {
        lemma_no_fault(es, n, k - 1);
    }
}

/// A graph: its nodes, which are `0..nodes.len()`, and its edges in some order.
pub struct MutableGraph {
    pub nodes: Vec<Node>,
    pub edges: Vec<Edge>,
}

impl MutableGraph {
    /// The number of nodes.
    pub open spec fn order(&self) -> nat {
        self.nodes@.len()
    }

    /// Every edge joins nodes of the graph at a cost that is not negative, and the nodes
    /// can be counted in an `i32`.
    pub open spec fn wf(&self) -> bool {
        &&& self.nodes@.len() <= i32::MAX
        &&& forall|i: int| 0 <= i < self.edges@.len() ==> (#[trigger] self.edges@[i]).fits(self.order())
    }

    pub fn new(nodes: Vec<Node>, edges: Vec<Edge>) -> (r: MutableGraph)
        ensures
            r.nodes == nodes,
            r.edges == edges,
    {
        MutableGraph { nodes, edges }
    }

    pub fn nodes(&self) -> (r: &Vec<Node>)
        ensures
            r == &self.nodes,
    {
        &self.nodes
    }

    pub fn edges(&self) -> (r: &Vec<Edge>)
        ensures
            r == &self.edges,
    {
        &self.edges
    }

    pub fn edges_mut(&mut self) -> (r: &mut Vec<Edge>)
        ensures
            *r == old(self).edges,
            final(self).edges == *final(r),
            final(self).nodes == old(self).nodes,
    {
        &mut self.edges
    }

    pub fn edges_copy(&self) -> (r: Vec<Edge>)
        ensures
            r@ == self.edges@,
    {
        let mut out: Vec<Edge> = Vec::new();
        let mut i: usize = 0;
        while i < self.edges.len()
            invariant
                i <= self.edges@.len(),
                out@ == self.edges@.take(i as int),
            decreases self.edges@.len() - i,
        {
            out.push(self.edges[i]);
            proof {
                assert(self.edges@.take(i + 1) =~= self.edges@.take(i as int).push(self.edges@[i as int]));
            }
            i = i + 1;
        }
        proof {
            assert(self.edges@.take(i as int) =~= self.edges@);
        }
        out
    }

    pub fn nodes_copy(&self) -> (r: Vec<Node>)
        ensures
            r@ == self.nodes@,
    {
        let mut out: Vec<Node> = Vec::new();
        let mut i: usize = 0;
        while i < self.nodes.len()
            invariant
                i <= self.nodes@.len(),
                out@ == self.nodes@.take(i as int),
            decreases self.nodes@.len() - i,
        {
            out.push(self.nodes[i]);
            proof {
                assert(self.nodes@.take(i + 1) =~= self.nodes@.take(i as int).push(self.nodes@[i as int]));
            }
            i = i + 1;
        }
        proof {
            assert(self.nodes@.take(i as int) =~= self.nodes@);
        }
        out
    }

    /// A spanning tree of least key sum, as `Kruskal::run` finds it.
    pub fn mst(&mut self, calculation_type: CalculationType) -> (r: (
        Option<MutableGraph>,
        i128,
        i64,
    ))
        requires
            old(self).wf(),
        ensures
            final(self).nodes == old(self).nodes,
            final(self).edges@ == sorted_edges(old(self).edges@, calculation_type),
            final(self).wf(),
            r.0 is Some <==> spans(ends_of(old(self).edges@), old(self).order()),
            r.0 matches Some(t) ==> {
                &&& t.wf()
                &&& t.nodes@ == old(self).nodes@
                &&& t.edges@ == forest_of(old(self).edges@, calculation_type)
                &&& r.1 == forest_sum(old(self).edges@, calculation_type)
                &&& r.2 == forest_bottleneck(old(self).edges@, calculation_type)
                &&& old(self).order() >= 1 ==> is_spanning_tree(
                    ends_of(t.edges@),
                    old(self).order(),
                )
            },
            r.0 is None ==> r.1 == INFINITE_SUM && r.2 == INFINITY,
    {
        Kruskal::run(self, calculation_type)
    }

    /// A spanning forest of least key sum, as `Kruskal::run_with_disconnected` finds it.
    pub fn mst_disconnected(&mut self, calculation_type: CalculationType) -> (r: (
        ConnectionType,
        MutableGraph,
        i128,
        i64,
    ))
        requires
            old(self).wf(),
        ensures
            final(self).nodes == old(self).nodes,
            final(self).edges@ == sorted_edges(old(self).edges@, calculation_type),
            final(self).wf(),
            r.0 is Connected <==> spans(ends_of(old(self).edges@), old(self).order()),
            r.1.wf(),
            r.1.nodes@ == old(self).nodes@,
            r.1.edges@ == forest_of(old(self).edges@, calculation_type),
            r.2 == forest_sum(old(self).edges@, calculation_type),
            r.3 == forest_bottleneck(old(self).edges@, calculation_type),
            r.0 is Connected && old(self).order() >= 1 ==> is_spanning_tree(
                ends_of(r.1.edges@),
                old(self).order(),
            ),
    {
        Kruskal::run_with_disconnected(self, calculation_type)
    }

    /// A spanning tree of least bottleneck, as `MBST::run` finds it.
    pub fn mbst(&mut self) -> (r: (Option<MutableGraph>, i64))
        requires
            old(self).wf(),
        ensures
            *final(self) == *old(self),
            is_mbst_result(*old(self), r),
    {
        MBST::run(self)
    }

    /// Whether the graph is well formed: what the searches ask of it.
    pub fn is_well_formed(&self) -> (r: bool)
        ensures
            r == self.wf(),
    {
        let n = self.nodes.len();
        if n > i32::MAX as usize {
            return false;
        }
        let mut i: usize = 0;
        while i < self.edges.len()
            invariant
                i <= self.edges@.len(),
                n == self.nodes@.len(),
                n <= i32::MAX,
                forall|k: int| 0 <= k < i ==> (#[trigger] self.edges@[k]).fits(n as nat),
            decreases self.edges@.len() - i,
        {
            let e = self.edges[i];
            if e.either >= n || e.other >= n || e.cost < 0 {
                proof {
                    assert(!self.edges@[i as int].fits(n as nat));
                }
                return false;
            }
            i = i + 1;
        }
        true
    }

    /// Whether every weight can change sign.
    pub fn is_invertible(&self) -> (r: bool)
        ensures
            r == (forall|i: int| 0 <= i < self.edges@.len() ==> (#[trigger] self.edges@[i]).invertible()),
    {
        let mut i: usize = 0;
        while i < self.edges.len()
            invariant
                i <= self.edges@.len(),
                forall|k: int| 0 <= k < i ==> (#[trigger] self.edges@[k]).invertible(),
            decreases self.edges@.len() - i,
        {
            let e = self.edges[i];
            if e.weight == i64::MIN || e.upgraded_weight == i64::MIN {
                proof {
                    assert(!self.edges@[i as int].invertible());
                }
                return false;
            }
            i = i + 1;
        }
        true
    }

    /// What a single edge lacks to be an edge of a graph of `n` nodes.
    pub fn check_edge(e: &Edge, n: usize) -> (r: Option<InvalidInput>)
        ensures
            r == edge_fault(*e, n as nat),
    {
        if e.either >= n || e.other >= n {
            Some(InvalidInput::Endpoint)
        } else if e.either == e.other {
            Some(InvalidInput::SelfLoop)
        } else if e.cost < 0 {
            Some(InvalidInput::NegativeCost)
        } else if !(NEG_INFINITY < e.weight && e.weight < INFINITY && NEG_INFINITY
            < e.upgraded_weight && e.upgraded_weight < INFINITY) {
            Some(InvalidInput::Magnitude)
        } else if e.upgraded_weight > e.weight {
            Some(InvalidInput::UpgradeOrder)
        } else {
            None
        }
    }

    /// Checks a graph as an instance gives it. A graph that passes is well formed, and
    /// its weights can change sign.
    pub fn check_input(&self) -> (r: Result<(), InvalidInput>)
        ensures
            match r {
                Ok(_) => input_fault(*self) is None,
                Err(fault) => input_fault(*self) == Some(fault),
            },
            r is Ok ==> self.wf() && forall|i: int|
                0 <= i < self.edges@.len() ==> (#[trigger] self.edges@[i]).invertible(),
    {
        let n = self.nodes.len();
        if n > i32::MAX as usize {
            return Err(InvalidInput::NegativeSize);
        }
        let mut i: usize = 0;
        while i < n
            invariant
                i <= n,
                n == self.nodes@.len(),
                n <= i32::MAX,
                nodes_fault(self.nodes@, i as int) is None,
            decreases n - i,
        {
            if self.nodes[i].id() != i {
                proof {
                    assert(self.nodes@[i as int].id != i);
                    assert(nodes_fault(self.nodes@, n as int) is Some);
                }
                return Err(InvalidInput::NodeId);
            }
            i = i + 1;
        }
        let mut k: usize = 0;
        while k < self.edges.len()
            invariant
                k <= self.edges@.len(),
                n == self.nodes@.len(),
                n <= i32::MAX,
                nodes_fault(self.nodes@, n as int) is None,
                edges_fault(self.edges@, n as nat, k as int) is None,
            decreases self.edges@.len() - k,
        {
            match Self::check_edge(&self.edges[k], n) {
                Some(fault) => {
                    proof {
                        assert(edges_fault(self.edges@, n as nat, k + 1) == Some(fault));
                        Self::lemma_fault_stays(self.edges@, n as nat, k + 1, self.edges@.len() as int);
                    }
                    return Err(fault);
                },
                None => {},
            }
            k = k + 1;
        }
        proof {
            lemma_no_fault(self.edges@, n as nat, self.edges@.len() as int);
        }
        Ok(())
    }

    /// The fault of the first edge that has one stays the fault when more edges are
    /// looked at.
    proof fn lemma_fault_stays(es: Seq<Edge>, n: nat, k: int, m: int)
        requires
            0 <= k <= m,
            edges_fault(es, n, k) is Some,
        ensures
            edges_fault(es, n, m) == edges_fault(es, n, k),
        decreases m - k,
    {
        if k < m {
            Self::lemma_fault_stays(es, n, k, m - 1);
        }
    }

    /// The sum of the costs of all edges.
    pub fn calculate_total_cost(&self) -> (r: i128)
        ensures
            r == cost_sum(self.edges@),
    {
        let mut sum: i128 = 0;
        let mut i: usize = 0;
        while i < self.edges.len()
            invariant
                i <= self.edges@.len(),
                sum == cost_sum(self.edges@.take(i as int)),
                -(i * 0x8000_0000_0000_0000) <= sum <= i * 0x7fff_ffff_ffff_ffff,
            decreases self.edges@.len() - i,
        {
            proof {
                assert(self.edges@.take(i + 1).drop_last() =~= self.edges@.take(i as int));
            }
            sum = sum + self.edges[i].cost as i128;
            i = i + 1;
        }
        proof {
            assert(self.edges@.take(i as int) =~= self.edges@);
        }
        sum
    }

    /// The graph on the same nodes with the edges that weigh `threshold` at most, in
    /// their order.
    pub fn smaller_or_eq_than(&self, threshold: i64) -> (r: MutableGraph)
        ensures
            r.nodes@ == self.nodes@,
            r.edges@ == self.edges@.filter(weight_at_most(threshold as int)),
    {
        let mut kept: Vec<Edge> = Vec::new();
        let mut i: usize = 0;
        while i < self.edges.len()
            invariant
                i <= self.edges@.len(),
                kept@ == self.edges@.take(i as int).filter(weight_at_most(threshold as int)),
            decreases self.edges@.len() - i,
        {
            let e = self.edges[i];
            proof {
                assert(self.edges@.take(i + 1) =~= self.edges@.take(i as int).push(e));
                self.edges@.take(i as int).lemma_filter_push(e, weight_at_most(threshold as int));
            }
            if e.weight <= threshold {
                kept.push(e);
            }
            i = i + 1;
        }
        proof {
            assert(self.edges@.take(i as int) =~= self.edges@);
        }
        MutableGraph { nodes: self.nodes_copy(), edges: kept }
    }

    /// The graph on the same nodes with the edges that weigh more than `threshold`, in
    /// their order.
    pub fn bigger_than(&self, threshold: i64) -> (r: MutableGraph)
        ensures
            r.nodes@ == self.nodes@,
            r.edges@ == self.edges@.filter(weight_above(threshold as int)),
    {
        let mut kept: Vec<Edge> = Vec::new();
        let mut i: usize = 0;
        while i < self.edges.len()
            invariant
                i <= self.edges@.len(),
                kept@ == self.edges@.take(i as int).filter(weight_above(threshold as int)),
            decreases self.edges@.len() - i,
        {
            let e = self.edges[i];
            proof {
                assert(self.edges@.take(i + 1) =~= self.edges@.take(i as int).push(e));
                self.edges@.take(i as int).lemma_filter_push(e, weight_above(threshold as int));
            }
            if e.weight > threshold {
                kept.push(e);
            }
            i = i + 1;
        }
        proof {
            assert(self.edges@.take(i as int) =~= self.edges@);
        }
        MutableGraph { nodes: self.nodes_copy(), edges: kept }
    }

    /// The edges that have the node `node_id` as an end, in their order.
    pub fn adj_edges(&self, node_id: usize) -> (r: Vec<Edge>)
        ensures
            r@ == self.edges@.filter(is_incident(node_id as int)),
    {
        let mut kept: Vec<Edge> = Vec::new();
        let mut i: usize = 0;
        while i < self.edges.len()
            invariant
                i <= self.edges@.len(),
                kept@ == self.edges@.take(i as int).filter(is_incident(node_id as int)),
            decreases self.edges@.len() - i,
        {
            let e = self.edges[i];
            let (u, v) = e.endpoints();
            proof {
                assert(self.edges@.take(i + 1) =~= self.edges@.take(i as int).push(e));
                self.edges@.take(i as int).lemma_filter_push(e, is_incident(node_id as int));
            }
            if u == node_id || v == node_id {
                kept.push(e);
            }
            i = i + 1;
        }
        proof {
            assert(self.edges@.take(i as int) =~= self.edges@);
        }
        kept
    }

    /// Unites the ends of every edge. Returns the classes and the number of edges whose
    /// ends were in one class already.
    pub fn components(&self) -> (r: (UF, usize))
        requires
            self.wf(),
        ensures
            r.0.wf(),
            r.0@.len() == self.order(),
            agrees(r.0@, ends_of(self.edges@)),
            representatives(r.0@).len() + self.edges@.len() == self.order() + r.1,
            r.1 <= self.edges@.len(),
            r.1 == 0 <==> acyclic(ends_of(self.edges@)),
    {
        let n = self.nodes.len();
        let mut uf = match UF::new(n as i32) {
            Ok(uf) => uf,
            Err(_) => unreached(),
        };
        let mut closing: usize = 0;
        let mut i: usize = 0;
        proof {
            let none = ends_of(self.edges@.take(0));
            assert(none =~= Seq::<(int, int)>::empty());
            lemma_labelling(none, n as nat);
            lemma_acyclic_count(none, n as nat);
        }
        while i < self.edges.len()
            invariant
                i <= self.edges@.len(),
                self.wf(),
                n == self.order(),
                uf.wf(),
                uf@.len() == n,
                agrees(uf@, ends_of(self.edges@.take(i as int))),
                representatives(uf@).len() + i == n + closing,
                closing <= i,
                closing == 0 <==> acyclic(ends_of(self.edges@.take(i as int))),
            decreases self.edges@.len() - i,
        {
            let (u, v) = self.edges[i].endpoints();
            proof {
                let e = self.edges@[i as int];
                assert(e.fits(n as nat));
                uf.lemma_view();
                lemma_union_agrees(uf@, ends_of(self.edges@.take(i as int)), e.ends());
                lemma_united_count(uf@, u as int, v as int);
                assert(ends_of(self.edges@.take(i + 1)) =~= ends_of(self.edges@.take(i as int)).push(
                    e.ends(),
                ));
                let before = ends_of(self.edges@.take(i as int));
                let after = ends_of(self.edges@.take(i + 1));
                if uf@[u as int] != uf@[v as int] && closing == 0 {
                    lemma_push_keeps_acyclic(before, e.ends());
                }
                assert(after.drop_last() =~= before);
                if acyclic(after) {
                    crate::datastructures::graph::connectivity::lemma_acyclic_prefix(after);
                }
            }
            if uf.connected(u, v) {
                closing = closing + 1;
            }
            uf.union(u, v);
            i = i + 1;
        }
        proof {
            assert(self.edges@.take(i as int) =~= self.edges@);
        }
        (uf, closing)
    }

    /// Whether the edges connect all nodes.
    pub fn is_connected_graph(&self) -> (r: bool)
        requires
            self.wf(),
        ensures
            r == spans(ends_of(self.edges@), self.order()),
    {
        let (uf, _) = self.components();
        proof {
            uf.lemma_view();
            lemma_agrees_spans(uf@, ends_of(self.edges@));
        }
        uf.count() <= 1
    }

    /// Whether the edges are a spanning tree of the nodes: one edge fewer than nodes, no
    /// cycle, all nodes connected.
    pub fn is_spanning_tree(&self) -> (r: bool)
        requires
            self.wf(),
        ensures
            r == is_spanning_tree(ends_of(self.edges@), self.order()),
    {
        let n = self.nodes.len();
        if n == 0 || self.edges.len() != n - 1 {
            return false;
        }
        let (uf, closing) = self.components();
        proof {
            uf.lemma_view();
            lemma_agrees_spans(uf@, ends_of(self.edges@));
            crate::datastructures::uf::union_find::lemma_single_class(uf@);
            assert(within(ends_of(self.edges@), n as nat)) by {
                assert forall|i: int| 0 <= i < ends_of(self.edges@).len() implies 0 <= (
                #[trigger] ends_of(self.edges@)[i]).0 < n && 0 <= ends_of(self.edges@)[i].1 < n by {
                    assert(self.edges@[i].fits(n as nat));
                }
            }
        }
        uf.count() == 1
    }

    /// Changes the sign of the weight and of the upgraded weight of every edge.
    pub fn inverse_weights(&mut self)
        requires
            forall|i: int| 0 <= i < old(self).edges@.len() ==> (#[trigger] old(self).edges@[i]).invertible(),
        ensures
            final(self).nodes == old(self).nodes,
            final(self).edges@ == inverted(old(self).edges@),
    {
        let mut i: usize = 0;
        while i < self.edges.len()
            invariant
                i <= self.edges@.len(),
                self.nodes == old(self).nodes,
                self.edges@.len() == old(self).edges@.len(),
                forall|k: int| 0 <= k < i ==> #[trigger] self.edges@[k] == inverted(old(self).edges@)[k],
                forall|k: int| i <= k < self.edges@.len() ==> #[trigger] self.edges@[k] == old(self).edges@[k],
                forall|k: int| 0 <= k < old(self).edges@.len() ==> (#[trigger] old(self).edges@[k]).invertible(),
            decreases self.edges@.len() - i,
        {
            let mut e = self.edges[i];
            assert(e == old(self).edges@[i as int]);
            e.inverse_weights();
            self.edges[i] = e;
            i = i + 1;
        }
        proof {
            assert(self.edges@ =~= inverted(old(self).edges@));
        }
    }

    /// The number of edges with a cost above zero.
    pub fn number_of_edges_upgraded(&self) -> (r: usize)
        ensures
            r == self.edges@.filter(has_cost()).len(),
    {
        let mut count: usize = 0;
        let mut i: usize = 0;
        while i < self.edges.len()
            invariant
                i <= self.edges@.len(),
                count == self.edges@.take(i as int).filter(has_cost()).len(),
                count <= i,
            decreases self.edges@.len() - i,
        {
            let e = self.edges[i];
            proof {
                assert(self.edges@.take(i + 1) =~= self.edges@.take(i as int).push(e));
                self.edges@.take(i as int).lemma_filter_push(e, has_cost());
            }
            if e.cost > 0 {
                count = count + 1;
            }
            i = i + 1;
        }
        proof {
            assert(self.edges@.take(i as int) =~= self.edges@);
        }
        count
    }
}

} // verus!
