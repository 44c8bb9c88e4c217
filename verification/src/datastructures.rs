pub mod garbage;
pub mod graph;
pub mod uf;
