pub mod connectivity;
pub mod edge;
pub mod immutable_graph;
pub mod mutable_graph;
pub mod node;
