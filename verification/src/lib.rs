//! Spanning trees of a network under a budget: cheapest spanning trees, spanning trees
//! of least bottleneck, and the searches for a spanning tree of least bottleneck whose
//! upgrades cost no more than a budget, with the data structures that they work on.
//! Every function is verified against its contract.

pub mod algorithms;
pub mod datastructures;
pub mod error;
