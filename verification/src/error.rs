use vstd::prelude::*;

verus! {

/// Why an input was turned down.
#[derive(Debug, Clone, Copy, PartialEq, Eq, Structural)]
pub enum InvalidInput {
    /// A count of elements below zero.
    NegativeSize,
    /// The node at some position does not carry its position as its id.
    NodeId,
    /// An edge has an endpoint that is no node of the graph.
    Endpoint,
    /// An edge joins a node to itself.
    SelfLoop,
    /// An edge has a cost below zero.
    NegativeCost,
    /// An edge has a weight or an upgraded weight that is not finite.
    Magnitude,
    /// An edge whose upgraded weight exceeds its weight.
    UpgradeOrder,
}

} // verus!
