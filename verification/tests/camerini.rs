use final_network_sts::algorithms::min_bottleneck_spanning_tree::camerini::MBST;
use final_network_sts::algorithms::min_sum_spanning_tree::kruskal::CalculationType;
use final_network_sts::datastructures::graph::edge::{Edge, INFINITY};
use final_network_sts::datastructures::graph::mutable_graph::MutableGraph;
use final_network_sts::datastructures::graph::node::Node;

fn complete_graph(sign: i64) -> MutableGraph {
    let mut nodes = Vec::new();
    for i in 0..8 {
        nodes.push(Node::default(i));
    }
    let mut edges = Vec::new();
    for v in 0..8usize {
        for w in (v + 1)..8usize {
            edges.push(Edge::new(v, w).weight(sign * (w - v) as i64));
        }
    }
    MutableGraph::new(nodes, edges)
}

#[test]
fn test_mbst() {
    let mut graph = complete_graph(1);
    let (_, _, bottleneck_kruskal) = graph.mst(CalculationType::Weight);
    let (st_cam, bottleneck_cam) = MBST::run(&mut graph);
    assert!(st_cam.is_some());
    assert!(st_cam.unwrap().is_spanning_tree());
    assert_eq!(bottleneck_cam, bottleneck_kruskal);
}

#[test]
fn test_negative_weights() {
    let mut graph = complete_graph(-1);
    let (_, _, bottleneck_kruskal) = graph.mst(CalculationType::Weight);
    let (st_cam, bottleneck_cam) = MBST::run(&mut graph);
    assert!(st_cam.is_some());
    assert!(st_cam.unwrap().is_spanning_tree());
    assert_eq!(bottleneck_cam, bottleneck_kruskal);
    assert_eq!(bottleneck_cam, -4);
}

#[test]
fn test_mutable_graph() {
    let mut graph = complete_graph(1);
    let (st_cam, bottleneck_cam) = MBST::run(&mut graph);
    assert!(st_cam.is_some());
    assert_eq!(bottleneck_cam, 1);
}

#[test]
fn mbst_of_disconnected_graph_is_a_smaller_forest() {
    let nodes: Vec<Node> = (0..5).map(Node::default).collect();
    let edges = vec![
        Edge::new(0, 1).weight(-1),
        Edge::new(0, 1).weight(-2),
        Edge::new(1, 2).weight(-7),
        Edge::new(0, 2).weight(-7),
        Edge::new(3, 4).weight(-3),
    ];
    let mut graph = MutableGraph::new(nodes, edges);
    let (st, bottleneck) = MBST::run(&mut graph);
    let st = st.unwrap();
    assert_eq!(st.edges().len(), 3);
    assert!(!st.is_spanning_tree());
    assert_eq!(bottleneck, -3);
}

#[test]
fn mbst_takes_the_lighter_of_equal_ends() {
    // three edges between the same two nodes, two of them of one weight
    let nodes: Vec<Node> = (0..2).map(Node::default).collect();
    for order in [[-1, -5, -1], [-1, -1, -5], [-5, -1, -1]] {
        let edges: Vec<Edge> = order.iter().map(|w| Edge::new(0, 1).weight(*w)).collect();
        let mut graph = MutableGraph::new(nodes.clone(), edges);
        let (st, bottleneck) = MBST::run(&mut graph);
        assert_eq!(st.unwrap().edges().len(), 1);
        assert_eq!(bottleneck, -5);
    }
}

#[test]
fn mbst_without_edges() {
    let mut graph = MutableGraph::new(vec![Node::default(0)], Vec::new());
    let (st, bottleneck) = MBST::run(&mut graph);
    assert_eq!(st.unwrap().edges().len(), 0);
    assert_eq!(bottleneck, INFINITY);
}

#[test]
fn mbst_of_weights_that_are_not_inverted_has_its_own_smallest_weight() {
    // the bottleneck of weights above zero is the smallest weight of the tree, and a
    // spanning tree with the least largest weight need not hold the lightest edge
    let nodes: Vec<Node> = (0..4).map(Node::default).collect();
    let edges = vec![
        Edge::new(1, 2).weight(2),
        Edge::new(0, 2).weight(2),
        Edge::new(0, 1).weight(1),
        Edge::new(2, 3).weight(9),
        Edge::new(1, 3).weight(9),
        Edge::new(0, 3).weight(9),
    ];
    let mut graph = MutableGraph::new(nodes, edges);
    let (tree, bottleneck) = MBST::run(&mut graph);
    let tree = tree.unwrap();
    assert!(tree.is_spanning_tree());
    assert_eq!(tree.edges().iter().map(|e| e.weight).max(), Some(9));
    assert_eq!(bottleneck, tree.edges().iter().map(|e| e.weight).min().unwrap());
    assert_eq!(bottleneck, 2);
    let (_, _, lightest) = graph.mst(CalculationType::Weight);
    assert_eq!(lightest, 1);
}
