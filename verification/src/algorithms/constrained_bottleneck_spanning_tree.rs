pub mod berman;
pub mod edge_elimination;
pub mod ee_fast;
pub mod fast_edge_elimination;
pub mod feasibility;
pub mod punnen;
pub mod upgrades;
