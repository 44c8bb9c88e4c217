use final_network_sts::datastructures::garbage::Garbage;
use final_network_sts::datastructures::graph::edge::{Edge, INFINITY, NEG_INFINITY};
use final_network_sts::datastructures::graph::mutable_graph::MutableGraph;
use final_network_sts::datastructures::graph::node::Node;
use final_network_sts::error::InvalidInput;

fn nodes(n: usize) -> Vec<Node> {
    (0..n).map(Node::default).collect()
}

#[test]
fn builder_test() {
    let edge: Edge = Edge {
        either: 0,
        other: 1,
        weight: 10,
        upgraded_weight: 20,
        cost: 30,
        or_either: 2,
        or_other: 3,
        or_weight: 10,
        upgraded: false,
    };
    let edge_from_builder: Edge = Edge::new(0, 1)
        .weight(10)
        .upgraded_weight(20)
        .cost(30)
        .set_original_endpoints(2, 3)
        .or_weight(10);
    assert_eq!(edge, edge_from_builder);
    assert_eq!(edge.original_endpoints(), edge_from_builder.original_endpoints());
    assert_eq!(edge.get_or_weight(), edge_from_builder.get_or_weight());
}

#[test]
fn edge_setters_and_getters() {
    let mut e = Edge::new(4, 2);
    assert_eq!(e.endpoints(), (4, 2));
    assert_eq!(e.original_endpoints(), (4, 2));
    assert_eq!((e.get_weight(), e.get_upgraded_weight(), e.get_cost(), e.get_or_weight()), (0, 0, 0, 0));
    assert!(!e.is_upgraded());
    e.set_weight_self(-3);
    e.set_upgraded_weight_self(-8);
    e.set_cost_self(6);
    e.set_upgraded_self(true);
    e.set_original_endpoints_self(7, 9);
    assert_eq!((e.get_weight(), e.get_upgraded_weight(), e.get_cost()), (-3, -8, 6));
    assert!(e.is_upgraded());
    assert_eq!(e.original_endpoints(), (7, 9));
    assert_eq!(e.endpoints(), (4, 2));
    e.inverse_weights();
    assert_eq!((e.get_weight(), e.get_upgraded_weight(), e.get_cost()), (3, 8, 6));
    assert_eq!(e.upgraded(false).is_upgraded(), false);
    assert_eq!(INFINITY, i64::MAX);
    assert_eq!(NEG_INFINITY, -i64::MAX);
}

#[test]
fn edges_are_equal_by_ends_weights_and_cost() {
    let e = Edge::new(0, 1).weight(2).upgraded_weight(3).cost(4);
    assert_eq!(e, e.or_weight(9).upgraded(true).set_original_endpoints(5, 6));
    assert_ne!(e, e.weight(1));
    assert_ne!(e, e.upgraded_weight(1));
    assert_ne!(e, e.cost(1));
    assert_ne!(e, Edge::new(0, 2).weight(2).upgraded_weight(3).cost(4));
    assert_ne!(e, Edge::new(1, 1).weight(2).upgraded_weight(3).cost(4));
}

#[test]
fn nodes_are_equal_by_id() {
    let node = Node::new(3, 10, -20);
    assert_eq!((node.id(), node.x(), node.y()), (3, 10, -20));
    assert_eq!(node, Node::default(3));
    assert_ne!(node, Node::new(4, 10, -20));
    let origin = Node::default(8);
    assert_eq!((origin.id(), origin.x(), origin.y()), (8, 0, 0));
}

#[test]
fn mutable_graph_test_get_edges_weight_lower_or_eq_than() {
    let mut nodes = Vec::new();
    let mut edges = Vec::new();
    nodes.push(Node::new(0, 0, 0));
    nodes.push(Node::new(1, 0, 0));
    nodes.push(Node::new(2, 0, 0));
    nodes.push(Node::new(3, 0, 0));
    edges.push(Edge::new(0, 1).weight(1));
    edges.push(Edge::new(0, 2).weight(2));
    edges.push(Edge::new(0, 3).weight(3));
    edges.push(Edge::new(1, 2).weight(4));
    edges.push(Edge::new(1, 3).weight(5));
    edges.push(Edge::new(2, 3).weight(6));
    let graph = MutableGraph::new(nodes, edges);
    let graph2 = graph.smaller_or_eq_than(3);
    assert_eq!(graph2.edges().len(), 3);
    // the edges of the part are the edges of the whole
    assert_eq!(&graph2.edges()[..], &graph.edges()[..3]);
}

#[test]
fn graph_parts_by_weight() {
    let edges: Vec<Edge> = [5, 2, 9, 2, 7].iter().map(|w| Edge::new(0, 1).weight(*w)).collect();
    let graph = MutableGraph::new(nodes(2), edges);
    let weights = |g: &MutableGraph| -> Vec<i64> { g.edges().iter().map(|e| e.weight).collect() };
    assert_eq!(weights(&graph.smaller_or_eq_than(5)), vec![5, 2, 2]);
    assert_eq!(weights(&graph.bigger_than(5)), vec![9, 7]);
    assert_eq!(weights(&graph.smaller_or_eq_than(1)), Vec::<i64>::new());
    assert_eq!(weights(&graph.bigger_than(1)), vec![5, 2, 9, 2, 7]);
    assert_eq!(graph.bigger_than(5).nodes().len(), 2);
}

#[test]
fn graph_measures() {
    let edges = vec![
        Edge::new(0, 1).weight(5).upgraded_weight(8).cost(3),
        Edge::new(1, 2).weight(-4).upgraded_weight(0).cost(0),
        Edge::new(2, 0).weight(0).upgraded_weight(-1).cost(7),
    ];
    let mut graph = MutableGraph::new(nodes(3), edges.clone());
    assert_eq!(graph.calculate_total_cost(), 10);
    assert_eq!(graph.number_of_edges_upgraded(), 2);
    assert_eq!(graph.adj_edges(1), vec![edges[0], edges[1]]);
    assert_eq!(graph.adj_edges(5), Vec::<Edge>::new());
    assert_eq!(graph.edges_copy(), edges);
    assert_eq!(graph.nodes_copy(), nodes(3));
    graph.inverse_weights();
    let inverted: Vec<(i64, i64, i64)> =
        graph.edges().iter().map(|e| (e.weight, e.upgraded_weight, e.cost)).collect();
    assert_eq!(inverted, vec![(-5, -8, 3), (4, 0, 0), (0, 1, 7)]);
    graph.edges_mut().truncate(1);
    assert_eq!(graph.edges().len(), 1);
    assert_eq!(graph.calculate_total_cost(), 3);
    let empty = MutableGraph::new(Vec::new(), Vec::new());
    assert_eq!(empty.calculate_total_cost(), 0);
    assert_eq!(empty.number_of_edges_upgraded(), 0);
}

#[test]
fn total_cost_of_huge_costs() {
    let edges: Vec<Edge> = (0..4).map(|_| Edge::new(0, 1).cost(i64::MAX)).collect();
    let graph = MutableGraph::new(nodes(2), edges);
    assert_eq!(graph.calculate_total_cost(), 4 * (i64::MAX as i128));
}

#[test]
fn connected_and_spanning() {
    let path = vec![Edge::new(0, 1), Edge::new(1, 2), Edge::new(2, 3)];
    let graph = MutableGraph::new(nodes(4), path.clone());
    assert!(graph.is_connected_graph());
    assert!(graph.is_spanning_tree());
    let (_, closing) = graph.components();
    assert_eq!(closing, 0);
    // one edge more: connected, no tree
    let mut more = path.clone();
    more.push(Edge::new(3, 0));
    let graph = MutableGraph::new(nodes(4), more);
    assert!(graph.is_connected_graph());
    assert!(!graph.is_spanning_tree());
    assert_eq!(graph.components().1, 1);
    // the right number of edges with a cycle: not connected
    let graph = MutableGraph::new(nodes(4), vec![Edge::new(0, 1), Edge::new(1, 2), Edge::new(2, 0)]);
    assert!(!graph.is_connected_graph());
    assert!(!graph.is_spanning_tree());
    // a single node
    let graph = MutableGraph::new(nodes(1), Vec::new());
    assert!(graph.is_connected_graph());
    assert!(graph.is_spanning_tree());
    // no node at all
    let graph = MutableGraph::new(Vec::new(), Vec::new());
    assert!(graph.is_connected_graph());
    assert!(!graph.is_spanning_tree());
    // two nodes apart
    let graph = MutableGraph::new(nodes(2), Vec::new());
    assert!(!graph.is_connected_graph());
    assert!(!graph.is_spanning_tree());
}

#[test]
fn garbage_holds_graphs_until_cleared() {
    let mut bin = Garbage::new();
    assert_eq!(bin.len(), 0);
    bin.add(MutableGraph::new(nodes(2), Vec::new()));
    bin.add(MutableGraph::new(nodes(3), Vec::new()));
    assert_eq!(bin.len(), 2);
    assert_eq!(bin.trash[1].nodes().len(), 3);
    bin.clear();
    assert_eq!(bin.len(), 0);
    assert_eq!(Garbage::default().len(), 0);
}

fn instance() -> MutableGraph {
    MutableGraph::new(
        (0..3).map(|i| Node::new(i, 0, 0)).collect(),
        vec![
            Edge::new(0, 1).weight(9).upgraded_weight(4).cost(2),
            Edge::new(1, 2).weight(5).upgraded_weight(5).cost(0),
        ],
    )
}

#[test]
fn check_input_accepts_an_instance() {
    let graph = instance();
    assert_eq!(graph.check_input(), Ok(()));
    assert!(graph.is_well_formed());
    assert!(graph.is_invertible());
    assert_eq!(MutableGraph::new(Vec::new(), Vec::new()).check_input(), Ok(()));
}

#[test]
fn check_input_names_the_first_fault() {
    let mut graph = instance();
    graph.nodes[1] = Node::new(2, 0, 0);
    assert_eq!(graph.check_input(), Err(InvalidInput::NodeId));
    let with = |e: Edge| -> Result<(), InvalidInput> {
        let mut graph = instance();
        graph.edges_mut().insert(1, e);
        graph.check_input()
    };
    assert_eq!(with(Edge::new(0, 3)), Err(InvalidInput::Endpoint));
    assert_eq!(with(Edge::new(3, 0)), Err(InvalidInput::Endpoint));
    assert_eq!(with(Edge::new(2, 2)), Err(InvalidInput::SelfLoop));
    assert_eq!(with(Edge::new(0, 2).cost(-1)), Err(InvalidInput::NegativeCost));
    assert_eq!(with(Edge::new(0, 2).weight(INFINITY)), Err(InvalidInput::Magnitude));
    assert_eq!(with(Edge::new(0, 2).weight(i64::MIN)), Err(InvalidInput::Magnitude));
    assert_eq!(with(Edge::new(0, 2).upgraded_weight(NEG_INFINITY)), Err(InvalidInput::Magnitude));
    assert_eq!(with(Edge::new(0, 2).weight(3).upgraded_weight(4)), Err(InvalidInput::UpgradeOrder));
    assert_eq!(with(Edge::new(0, 2).weight(3).upgraded_weight(3)), Ok(()));
    // the first fault of the first edge that has one
    assert_eq!(with(Edge::new(2, 2).cost(-1).weight(INFINITY)), Err(InvalidInput::SelfLoop));
    let mut graph = instance();
    graph.edges_mut().push(Edge::new(0, 2).cost(-1));
    graph.edges_mut().push(Edge::new(0, 0));
    assert_eq!(graph.check_input(), Err(InvalidInput::NegativeCost));
    assert_eq!(MutableGraph::check_edge(&Edge::new(0, 1), 2), None);
    assert_eq!(MutableGraph::check_edge(&Edge::new(0, 1), 1), Some(InvalidInput::Endpoint));
}

#[test]
fn well_formed_and_invertible() {
    let mut graph = instance();
    graph.edges_mut().push(Edge::new(0, 3));
    assert!(!graph.is_well_formed());
    let mut graph = instance();
    graph.edges_mut().push(Edge::new(0, 2).cost(-4));
    assert!(!graph.is_well_formed());
    // an edge from a node to itself is no fault of form
    let mut graph = instance();
    graph.edges_mut().push(Edge::new(2, 2));
    assert!(graph.is_well_formed());
    let mut graph = instance();
    graph.edges_mut().push(Edge::new(0, 2).upgraded_weight(i64::MIN));
    assert!(!graph.is_invertible());
    graph.edges_mut().pop();
    graph.edges_mut().push(Edge::new(0, 2).weight(i64::MIN + 1));
    assert!(graph.is_invertible());
}

#[test]
fn edges_are_ordered_by_weight() {
    let light = Edge::new(5, 6).weight(-3).cost(9);
    let heavy = Edge::new(0, 1).weight(2);
    assert!(light < heavy);
    assert!(heavy > light);
    assert!(light <= light.cost(1));
    assert!(!(light < light.cost(1)));
    assert_eq!(light.partial_cmp(&heavy), Some(std::cmp::Ordering::Less));
    assert_eq!(heavy.partial_cmp(&heavy.upgraded(true)), Some(std::cmp::Ordering::Equal));
}
