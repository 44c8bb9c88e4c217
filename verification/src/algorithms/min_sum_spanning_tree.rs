pub mod cheapest;
pub mod kruskal;
