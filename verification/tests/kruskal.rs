use final_network_sts::algorithms::min_sum_spanning_tree::kruskal::{
    CalculationType, ConnectionType, Kruskal, INFINITE_SUM,
};
use final_network_sts::datastructures::graph::edge::{Edge, INFINITY, NEG_INFINITY};
use final_network_sts::datastructures::graph::mutable_graph::MutableGraph;
use final_network_sts::datastructures::graph::node::Node;

fn nodes(n: usize) -> Vec<Node> {
    (0..n).map(Node::default).collect()
}

fn classic() -> Vec<(usize, usize, i64)> {
    vec![
        (7, 6, 1),
        (8, 2, 2),
        (6, 5, 2),
        (0, 1, 4),
        (2, 5, 4),
        (8, 6, 6),
        (2, 3, 7),
        (7, 8, 7),
        (0, 7, 8),
        (1, 2, 8),
        (3, 4, 9),
        (5, 4, 10),
        (1, 7, 11),
        (3, 5, 14),
    ]
}

#[test]
fn test_kruskal() {
    let mut nodes = Vec::new();
    for i in 0..8 {
        nodes.push(Node::default(i));
    }
    let mut edges = Vec::new();
    for v in 0..8usize {
        for w in (v + 1)..8usize {
            edges.push(Edge::new(v, w).weight(1));
        }
    }
    let mut graph = MutableGraph::new(nodes, edges);
    let (st, weight, bottleneck) = Kruskal::run(&mut graph, CalculationType::Weight);
    assert!(st.is_some());
    assert!(st.unwrap().is_spanning_tree());
    assert_eq!(weight, 7);
    assert_eq!(bottleneck, 1);
}

#[test]
fn test_kruskal2() {
    let mut nodes = Vec::new();
    for i in 0..=8 {
        nodes.push(Node::default(i));
    }
    let mut edges_mut = Vec::new();
    classic()
        .iter()
        .for_each(|(v, w, weight)| edges_mut.push(Edge::new(*v, *w).weight(*weight)));
    let mut graph_mut = MutableGraph::new(nodes, edges_mut);
    let (st_mut, weight_mut, bottleneck_mut) = Kruskal::run(&mut graph_mut, CalculationType::Weight);
    assert!(st_mut.is_some());
    assert!(st_mut.unwrap().is_spanning_tree());
    assert_eq!(bottleneck_mut, 1);
    assert_eq!(weight_mut, 37);
}

#[test]
fn test_kruskal3() {
    let mut nodes = Vec::new();
    for i in 0..=8 {
        nodes.push(Node::default(i));
    }
    let mut edges = Vec::new();
    classic().iter().for_each(|(v, w, weight)| edges.push(Edge::new(*v, *w).cost(*weight)));
    let mut graph = MutableGraph::new(nodes, edges);
    let (st, weight, _bottleneck) = Kruskal::run(&mut graph, CalculationType::Cost);
    assert!(st.is_some());
    assert!(st.unwrap().is_spanning_tree());
    assert_eq!(weight, 37);
}

#[test]
fn kruskal_sorts_the_graph_in_place() {
    let edges = vec![
        Edge::new(0, 1).weight(5),
        Edge::new(1, 2).weight(3),
        Edge::new(0, 2).weight(3),
        Edge::new(0, 2).weight(1),
    ];
    let mut graph = MutableGraph::new(nodes(3), edges);
    let (st, sum, _) = Kruskal::run(&mut graph, CalculationType::Weight);
    let order: Vec<(usize, usize, i64)> =
        graph.edges().iter().map(|e| (e.either, e.other, e.weight)).collect();
    assert_eq!(order, vec![(0, 2, 1), (0, 2, 3), (1, 2, 3), (0, 1, 5)]);
    let tree: Vec<(usize, usize, i64)> =
        st.unwrap().edges().iter().map(|e| (e.either, e.other, e.weight)).collect();
    assert_eq!(tree, vec![(0, 2, 1), (1, 2, 3)]);
    assert_eq!(sum, 4);
}

#[test]
fn kruskal_breaks_ties_by_every_field() {
    // equal keys and ends: the other fields decide, and `false` comes before `true`
    let a = Edge::new(0, 1).weight(3).cost(4).upgraded(true);
    let b = Edge::new(0, 1).weight(3).cost(4);
    let c = Edge::new(0, 1).weight(3).cost(2);
    let d = Edge::new(0, 1).weight(3).cost(2).upgraded_weight(-1);
    let mut graph = MutableGraph::new(nodes(2), vec![a, b, c, d]);
    Kruskal::run(&mut graph, CalculationType::Weight);
    let order: Vec<(i64, i64, bool)> =
        graph.edges().iter().map(|e| (e.upgraded_weight, e.cost, e.upgraded)).collect();
    assert_eq!(order, vec![(-1, 2, false), (0, 2, false), (0, 4, false), (0, 4, true)]);
    let (st, sum, _) = Kruskal::run(&mut graph, CalculationType::Cost);
    assert_eq!(sum, 2);
    assert_eq!(st.unwrap().edges()[0].upgraded_weight, -1);
}

#[test]
fn kruskal_bottleneck_follows_the_sign_of_the_first_edge() {
    let edges = vec![Edge::new(0, 1).weight(-2), Edge::new(1, 2).weight(-6), Edge::new(0, 2).weight(-4)];
    let mut graph = MutableGraph::new(nodes(3), edges);
    let (_, sum, bottleneck) = Kruskal::run(&mut graph, CalculationType::Weight);
    // inverted weights: the largest weight of the tree
    assert_eq!(sum, -10);
    assert_eq!(bottleneck, -4);
    let edges = vec![Edge::new(0, 1).weight(2), Edge::new(1, 2).weight(6), Edge::new(0, 2).weight(4)];
    let mut graph = MutableGraph::new(nodes(3), edges);
    let (_, sum, bottleneck) = Kruskal::run(&mut graph, CalculationType::Weight);
    // weights as they are: the smallest weight of the tree
    assert_eq!(sum, 6);
    assert_eq!(bottleneck, 2);
}

#[test]
fn kruskal_disconnected_has_no_tree() {
    let edges = vec![Edge::new(0, 1).weight(5)];
    let mut graph = MutableGraph::new(nodes(3), edges);
    let (st, sum, bottleneck) = Kruskal::run(&mut graph, CalculationType::Weight);
    assert!(st.is_none());
    assert_eq!(sum, INFINITE_SUM);
    assert_eq!(bottleneck, INFINITY);
    let (kind, forest, sum, bottleneck) =
        Kruskal::run_with_disconnected(&mut graph, CalculationType::Weight);
    assert_eq!(kind, ConnectionType::Disconnected);
    assert_eq!(forest.edges().len(), 1);
    assert_eq!(sum, 5);
    assert_eq!(bottleneck, 5);
}

#[test]
fn kruskal_without_edges() {
    // more than one node and no edge: no tree
    let mut graph = MutableGraph::new(nodes(2), Vec::new());
    let (st, sum, bottleneck) = Kruskal::run(&mut graph, CalculationType::Cost);
    assert!(st.is_none());
    assert_eq!((sum, bottleneck), (INFINITE_SUM, INFINITY));
    // one node: the empty tree
    let mut graph = MutableGraph::new(nodes(1), Vec::new());
    let (st, sum, bottleneck) = Kruskal::run(&mut graph, CalculationType::Cost);
    assert_eq!(st.unwrap().edges().len(), 0);
    assert_eq!((sum, bottleneck), (0, INFINITY));
    let (kind, forest, sum, _) = Kruskal::run_with_disconnected(&mut graph, CalculationType::Cost);
    assert_eq!(kind, ConnectionType::Connected);
    assert_eq!(forest.edges().len(), 0);
    assert_eq!(sum, 0);
}

#[test]
fn kruskal_connected_forest_is_the_tree() {
    let mut edges = Vec::new();
    classic().iter().for_each(|(v, w, weight)| edges.push(Edge::new(*v, *w).weight(-*weight)));
    let mut graph = MutableGraph::new(nodes(9), edges);
    let (kind, forest, sum, bottleneck) =
        Kruskal::run_with_disconnected(&mut graph, CalculationType::Weight);
    assert_eq!(kind, ConnectionType::Connected);
    assert!(forest.is_spanning_tree());
    // the heaviest spanning tree of the weights as they were
    assert_eq!(sum, -(14 + 11 + 10 + 8 + 8 + 7 + 7 + 6));
    assert_eq!(bottleneck, -6);
    assert!(bottleneck > NEG_INFINITY);
}

#[test]
fn kruskal_tree_passes_the_optimality_check() {
    let mut edges = Vec::new();
    classic().iter().for_each(|(v, w, weight)| edges.push(Edge::new(*v, *w).weight(*weight)));
    let mut graph = MutableGraph::new(nodes(9), edges);
    let (st, sum, _) = Kruskal::run(&mut graph, CalculationType::Weight);
    let st = st.unwrap();
    assert!(Kruskal::check_optimality(&graph, &st, sum, CalculationType::Weight));
    // a wrong sum
    assert!(!Kruskal::check_optimality(&graph, &st, sum + 1, CalculationType::Weight));
    // a spanning tree that is not the cheapest: 1-7 in place of 0-1
    let mut worse: Vec<Edge> = st.edges().iter().filter(|e| e.endpoints() != (0, 1)).cloned().collect();
    worse.push(Edge::new(1, 7).weight(11));
    let worse = MutableGraph::new(nodes(9), worse);
    assert!(worse.is_spanning_tree());
    assert!(!Kruskal::check_optimality(&graph, &worse, sum + 7, CalculationType::Weight));
    // a cycle
    let cycle = MutableGraph::new(
        nodes(9),
        vec![Edge::new(7, 6).weight(1), Edge::new(6, 5).weight(2), Edge::new(5, 7).weight(0)],
    );
    assert!(!Kruskal::check_optimality(&graph, &cycle, 3, CalculationType::Weight));
    // the empty tree passes
    let empty = MutableGraph::new(nodes(9), Vec::new());
    assert!(Kruskal::check_optimality(&graph, &empty, 5, CalculationType::Weight));
}

#[test]
fn kruskal_key_and_rank() {
    let e = Edge::new(3, 4).weight(-5).cost(7).upgraded_weight(-9).or_weight(2).upgraded(true);
    assert_eq!(Kruskal::key_of(&e, &CalculationType::Cost), 7);
    assert_eq!(Kruskal::key_of(&e, &CalculationType::Weight), -5);
    assert_eq!(
        Kruskal::scanning_rank(&e, &CalculationType::Cost),
        ((7, 3, 4), (-5, -9, 7), (3, 4, 2, true))
    );
}

#[test]
fn kruskal_with_budget_stops_above_the_budget() {
    let edges = || -> Vec<Edge> {
        let mut edges = Vec::new();
        classic().iter().for_each(|(v, w, cost)| edges.push(Edge::new(*v, *w).cost(*cost)));
        edges
    };
    // the cheapest tree costs 37
    let mut graph = MutableGraph::new(nodes(9), edges());
    let (st, sum, bottleneck) = Kruskal::run_with_budget(&mut graph, CalculationType::Cost, 37);
    assert!(st.unwrap().is_spanning_tree());
    assert_eq!((sum, bottleneck), (37, 0));
    assert_eq!(graph.edges()[0].cost, 1);
    let mut graph = MutableGraph::new(nodes(9), edges());
    let (st, sum, bottleneck) = Kruskal::run_with_budget(&mut graph, CalculationType::Cost, 36);
    assert!(st.is_none());
    assert_eq!((sum, bottleneck), (INFINITE_SUM, INFINITY));
    // a budget below zero stops the scan before the first edge
    let mut graph = MutableGraph::new(nodes(1), Vec::new());
    assert!(Kruskal::run_with_budget(&mut graph, CalculationType::Cost, -1).0.is_none());
    assert!(Kruskal::run_with_budget(&mut graph, CalculationType::Cost, 0).0.is_some());
    // not connected: no tree, whatever the budget
    let mut graph = MutableGraph::new(nodes(3), vec![Edge::new(0, 1).cost(1)]);
    assert!(Kruskal::run_with_budget(&mut graph, CalculationType::Cost, 100).0.is_none());
    // by weight: the sums are -5 and then 2
    let mut graph = MutableGraph::new(
        nodes(3),
        vec![Edge::new(0, 1).weight(7), Edge::new(1, 2).weight(-5)],
    );
    assert!(Kruskal::run_with_budget(&mut graph, CalculationType::Weight, 1).0.is_none());
    let (st, sum, bottleneck) = Kruskal::run_with_budget(&mut graph, CalculationType::Weight, 2);
    assert_eq!(st.unwrap().edges().len(), 2);
    assert_eq!((sum, bottleneck), (2, 7));
    // the sum of no edge is zero: a budget below zero allows nothing
    assert!(Kruskal::run_with_budget(&mut graph, CalculationType::Weight, -1).0.is_none());
}
