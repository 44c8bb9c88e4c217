use std::cmp::Ordering;
use vstd::prelude::*;
use vstd::std_specs::cmp::{PartialEqSpecImpl, PartialOrdSpecImpl};

verus! {

/// Stands for a weight above every weight.
pub const INFINITY: i64 = 9223372036854775807;

/// Stands for a weight below every weight.
pub const NEG_INFINITY: i64 = -9223372036854775807;

/// An undirected edge. Weights and costs are whole numbers. `either` and `other` are its
/// ends; `or_either` and `or_other` keep the ends it had before nodes were contracted.
#[derive(Debug, Clone, Copy, Default)]
pub struct Edge {
    pub either: usize,
    pub other: usize,
    pub weight: i64,
    pub upgraded_weight: i64,
    pub cost: i64,
    pub or_either: usize,
    pub or_other: usize,
    pub or_weight: i64,
    pub upgraded: bool,
}

/// The ends of each edge, in the order of the edges.
pub open spec fn ends_of(es: Seq<Edge>) -> Seq<(int, int)> {
    Seq::new(es.len(), |i: int| es[i].ends())
}

/// The sum of the costs.
pub open spec fn cost_sum(es: Seq<Edge>) -> int
    decreases es.len(),
{
    if es.len() == 0 {
        0
    } else {
        cost_sum(es.drop_last()) + es.last().cost
    }
}

/// The sum of the weights.
pub open spec fn weight_sum(es: Seq<Edge>) -> int
    decreases es.len(),
{
    if es.len() == 0 {
        0
    } else {
        weight_sum(es.drop_last()) + es.last().weight
    }
}

/// The largest weight, and `NEG_INFINITY` where there is no edge.
pub open spec fn max_weight(es: Seq<Edge>) -> int
    decreases es.len(),
{
    if es.len() == 0 {
        NEG_INFINITY as int
    } else if es.last().weight > max_weight(es.drop_last()) {
        es.last().weight as int
    } else {
        max_weight(es.drop_last())
    }
}

/// The smallest weight, and `INFINITY` where there is no edge.
pub open spec fn min_weight(es: Seq<Edge>) -> int
    decreases es.len(),
{
    if es.len() == 0 {
        INFINITY as int
    } else if es.last().weight < min_weight(es.drop_last()) {
        es.last().weight as int
    } else {
        min_weight(es.drop_last())
    }
}

impl Edge {
    /// The two ends.
    pub open spec fn ends(self) -> (int, int) {
        (self.either as int, self.other as int)
    }

    /// Both ends are nodes of a graph of `n` nodes, and the cost is not negative.
    pub open spec fn fits(self, n: nat) -> bool {
        self.either < n && self.other < n && self.cost >= 0
    }

    /// Both weights can change sign.
    pub open spec fn invertible(self) -> bool {
        self.weight > i64::MIN && self.upgraded_weight > i64::MIN
    }

    /// An edge from `either` to `other` with weights and cost 0, not upgraded.
    pub fn new(either: usize, other: usize) -> (r: Edge)
        ensures
            r == (Edge {
                either,
                other,
                weight: 0,
                upgraded_weight: 0,
                cost: 0,
                or_either: either,
                or_other: other,
                or_weight: 0,
                upgraded: false,
            }),
    {
        Edge {
            either,
            other,
            weight: 0,
            upgraded_weight: 0,
            cost: 0,
            or_either: either,
            or_other: other,
            or_weight: 0,
            upgraded: false,
        }
    }

    pub fn endpoints(&self) -> (r: (usize, usize))
        ensures
            r == (self.either, self.other),
    {
        (self.either, self.other)
    }

    pub fn original_endpoints(&self) -> (r: (usize, usize))
        ensures
            r == (self.or_either, self.or_other),
    {
        (self.or_either, self.or_other)
    }

    pub fn weight(self, weight: i64) -> (r: Edge)
        ensures
            r == (Edge { weight, ..self }),
    {
        let mut e = self;
        e.weight = weight;
        e
    }

    pub fn upgraded(self, upgraded: bool) -> (r: Edge)
        ensures
            r == (Edge { upgraded, ..self }),
    {
        let mut e = self;
        e.upgraded = upgraded;
        e
    }

    pub fn is_upgraded(&self) -> (r: bool)
        ensures
            r == self.upgraded,
    {
        self.upgraded
    }

    pub fn upgraded_weight(self, upgraded_weight: i64) -> (r: Edge)
        ensures
            r == (Edge { upgraded_weight, ..self }),
    {
        let mut e = self;
        e.upgraded_weight = upgraded_weight;
        e
    }

    pub fn cost(self, cost: i64) -> (r: Edge)
        ensures
            r == (Edge { cost, ..self }),
    {
        let mut e = self;
        e.cost = cost;
        e
    }

    pub fn or_weight(self, or_weight: i64) -> (r: Edge)
        ensures
            r == (Edge { or_weight, ..self }),
    {
        let mut e = self;
        e.or_weight = or_weight;
        e
    }

    pub fn get_weight(&self) -> (r: i64)
        ensures
            r == self.weight,
    {
        self.weight
    }

    pub fn get_upgraded_weight(&self) -> (r: i64)
        ensures
            r == self.upgraded_weight,
    {
        self.upgraded_weight
    }

    pub fn get_cost(&self) -> (r: i64)
        ensures
            r == self.cost,
    {
        self.cost
    }

    pub fn get_or_weight(&self) -> (r: i64)
        ensures
            r == self.or_weight,
    {
        self.or_weight
    }

    pub fn set_original_endpoints(self, either: usize, other: usize) -> (r: Edge)
        ensures
            r == (Edge { or_either: either, or_other: other, ..self }),
    {
        let mut e = self;
        e.or_either = either;
        e.or_other = other;
        e
    }

    pub fn set_original_endpoints_self(&mut self, either: usize, other: usize)
        ensures
            *final(self) == (Edge { or_either: either, or_other: other, ..*old(self) }),
    {
        self.or_either = either;
        self.or_other = other;
    }

    pub fn set_weight_self(&mut self, weight: i64)
        ensures
            *final(self) == (Edge { weight, ..*old(self) }),
    {
        self.weight = weight;
    }

    pub fn set_upgraded_weight_self(&mut self, upgraded_weight: i64)
        ensures
            *final(self) == (Edge { upgraded_weight, ..*old(self) }),
    {
        self.upgraded_weight = upgraded_weight;
    }

    pub fn set_upgraded_self(&mut self, upgraded: bool)
        ensures
            *final(self) == (Edge { upgraded, ..*old(self) }),
    {
        self.upgraded = upgraded;
    }

    pub fn set_cost_self(&mut self, cost: i64)
        ensures
            *final(self) == (Edge { cost, ..*old(self) }),
    {
        self.cost = cost;
    }

    /// Changes the sign of the weight and of the upgraded weight.
    pub fn inverse_weights(&mut self)
        requires
            old(self).invertible(),
        ensures
            *final(self) == (Edge {
                weight: (-old(self).weight) as i64,
                upgraded_weight: (-old(self).upgraded_weight) as i64,
                ..*old(self)
            }),
    {
        self.weight = -self.weight;
        self.upgraded_weight = -self.upgraded_weight;
    }
}

/// Two edges are equal when they agree in their ends, both weights and the cost.
impl PartialEq for Edge {
    fn eq(&self, other: &Self) -> (r: bool) {
        self.either == other.either && self.other == other.other && self.weight == other.weight
            && self.upgraded_weight == other.upgraded_weight && self.cost == other.cost
    }
}

impl PartialEqSpecImpl for Edge {
    open spec fn obeys_eq_spec() -> bool {
        true
    }

    open spec fn eq_spec(&self, other: &Self) -> bool {
        self.either == other.either && self.other == other.other && self.weight == other.weight
            && self.upgraded_weight == other.upgraded_weight && self.cost == other.cost
    }
}

impl Eq for Edge {

}

/// Edges are ordered by their weights.
impl PartialOrd for Edge {
    fn partial_cmp(&self, other: &Self) -> (r: Option<Ordering>) {
        if self.weight < other.weight {
            Some(Ordering::Less)
        } else if self.weight == other.weight {
            Some(Ordering::Equal)
        } else {
            Some(Ordering::Greater)
        }
    }
}

impl PartialOrdSpecImpl for Edge {
    open spec fn obeys_partial_cmp_spec() -> bool {
        true
    }

    open spec fn partial_cmp_spec(&self, other: &Self) -> Option<Ordering> {
        if self.weight < other.weight {
            Some(Ordering::Less)
        } else if self.weight == other.weight {
            Some(Ordering::Equal)
        } else {
            Some(Ordering::Greater)
        }
    }
}

} // verus!
