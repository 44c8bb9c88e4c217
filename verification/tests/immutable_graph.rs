use final_network_sts::algorithms::kruskal::{CalculationType, Kruskal};
use final_network_sts::algorithms::min_sum_spanning_tree::kruskal::INFINITE_SUM;
use final_network_sts::datastructures::graph::edge::{Edge, INFINITY};
use final_network_sts::datastructures::graph::immutable_graph::ImmutableGraph;
use final_network_sts::datastructures::graph::node::Node;

fn complete(weight: fn(usize, usize) -> i64) -> ImmutableGraph {
    let mut nodes = Vec::new();
    for i in 0..8 {
        nodes.push(Node::default(i));
    }
    let mut edges = Vec::new();
    for v in 0..8usize {
        for w in (v + 1)..8usize {
            edges.push(Edge::new(v, w).weight(weight(v, w)));
        }
    }
    ImmutableGraph::new(nodes, edges)
}

#[test]
fn kruskal_test_kruskal() {
    let mut graph = complete(|_, _| 1);
    let (st, weight, bottleneck) = Kruskal::run(&mut graph, CalculationType::Weight);
    assert!(st.is_some());
    assert!(st.unwrap().is_spanning_tree());
    assert_eq!(weight, 7);
    assert_eq!(bottleneck, 1);
}

#[test]
fn kruskal_test_kruskal2() {
    let mut graph = complete(|v, w| (w - v) as i64);
    let (st, weight, bottleneck) = Kruskal::run(&mut graph, CalculationType::Weight);
    assert!(st.is_some());
    assert!(st.unwrap().is_spanning_tree());
    assert_eq!(weight, 7);
    assert_eq!(bottleneck, 1);
}

#[test]
fn immutable_graph_test_get_edges_weight_lower_or_eq_than() {
    let mut nodes = Vec::new();
    let mut edges = Vec::new();
    nodes.push(Node::new(0, 0, 0));
    nodes.push(Node::new(1, 0, 0));
    nodes.push(Node::new(2, 0, 0));
    nodes.push(Node::new(3, 0, 0));
    edges.push(Edge::new(0, 1).weight(1));
    edges.push(Edge::new(0, 2).weight(2));
    edges.push(Edge::new(0, 3).weight(3));
    edges.push(Edge::new(1, 2).weight(4));
    edges.push(Edge::new(1, 3).weight(5));
    edges.push(Edge::new(2, 3).weight(6));
    let graph = ImmutableGraph::new(nodes, edges);
    let graph2 = graph.get_edges_weight_lower_or_eq_than(3);
    assert_eq!(graph2.edges().len(), 3);
    // the edges of the part are the edges of the whole
    assert_eq!(&graph2.edges()[..], &graph.edges()[..3]);
    let graph3 = graph.get_edges_weight_bigger_than(3);
    assert_eq!(&graph3.edges()[..], &graph.edges()[3..]);
    assert_eq!(graph3.nodes().len(), 4);
}

#[test]
fn immutable_kruskal_bottleneck_is_the_smallest_key() {
    let nodes: Vec<Node> = (0..3).map(Node::default).collect();
    let edges = vec![
        Edge::new(0, 1).weight(-2).cost(9),
        Edge::new(1, 2).weight(-6).cost(4),
        Edge::new(0, 2).weight(-4).cost(5),
    ];
    let mut graph = ImmutableGraph::new(nodes.clone(), edges.clone());
    let (st, sum, bottleneck) = graph.min_sum_st(CalculationType::Weight);
    assert_eq!(st.unwrap().edges().len(), 2);
    assert_eq!((sum, bottleneck), (-10, -6));
    let (st, sum, bottleneck) = Kruskal::run(&mut graph, CalculationType::Cost);
    let st = st.unwrap();
    assert_eq!((sum, bottleneck), (9, 4));
    assert!(Kruskal::check_optimality(&st, 9, CalculationType::Cost));
    assert!(!Kruskal::check_optimality(&st, 8, CalculationType::Cost));
    assert!(!Kruskal::check_optimality(&graph, 18, CalculationType::Cost));
    let mut apart = ImmutableGraph::new(nodes, vec![edges[0]]);
    let (st, sum, bottleneck) = Kruskal::run(&mut apart, CalculationType::Cost);
    assert!(st.is_none());
    assert_eq!((sum, bottleneck), (INFINITE_SUM, INFINITY));
}

#[test]
fn immutable_graph_measures() {
    let nodes = vec![Node::new(0, 1, 2), Node::new(1, 3, 4), Node::new(1, 5, 6)];
    let edges = vec![
        Edge::new(0, 1).weight(4).upgraded_weight(6).cost(3).or_weight(1).upgraded(true),
        Edge::new(1, 2).weight(-7).cost(2),
    ];
    let mut graph = ImmutableGraph::new(nodes, edges.clone());
    assert_eq!(graph.calculate_total_weight(), -3);
    assert_eq!(graph.calculate_total_cost(), 5);
    assert!(graph.is_spanning_tree());
    assert_eq!(graph.get_edges_by_node(1), edges);
    assert_eq!(graph.get_edges_by_node(2), vec![edges[1]]);
    assert_eq!(graph.edges_copy(), edges);
    assert_eq!(graph.nodes_copy().len(), 3);
    // the first node with the id
    assert_eq!(graph.get_node(1).unwrap().x(), 3);
    assert!(graph.get_node(2).is_none());
    let negative = graph.negative_weights();
    let e = negative.edges()[0];
    assert_eq!((e.weight, e.upgraded_weight, e.cost), (-4, -6, 3));
    assert_eq!((e.or_weight, e.upgraded, e.original_endpoints()), (0, false, (0, 1)));
    assert_eq!(negative.edges()[1].weight, 7);
    graph.edges_mut().pop();
    assert_eq!(graph.edges().len(), 1);
    let inverted = vec![Edge::new(0, 1).weight(-4), Edge::new(1, 2).weight(-7), Edge::new(0, 2).weight(-5)];
    let (st, bottleneck) = ImmutableGraph::new(graph.nodes_copy(), inverted).min_bot_st();
    assert!(st.unwrap().is_spanning_tree());
    assert_eq!(bottleneck, -5);
}
