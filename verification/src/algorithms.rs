pub mod bottleneck;
pub mod constrained_bottleneck_spanning_tree;
pub mod kruskal;
pub mod min_bottleneck_spanning_tree;
pub mod min_sum_spanning_tree;
pub mod quick_select;
pub mod util;
