use final_network_sts::algorithms::constrained_bottleneck_spanning_tree::berman::Berman;
use final_network_sts::algorithms::constrained_bottleneck_spanning_tree::edge_elimination::EdgeEliminationOld;
use final_network_sts::algorithms::constrained_bottleneck_spanning_tree::ee_fast::EE;
use final_network_sts::algorithms::constrained_bottleneck_spanning_tree::fast_edge_elimination::FastEdgeElimination;
use final_network_sts::algorithms::constrained_bottleneck_spanning_tree::punnen::Punnen;
use final_network_sts::algorithms::min_bottleneck_spanning_tree::camerini::MBST;
use final_network_sts::algorithms::min_sum_spanning_tree::kruskal::{CalculationType, Kruskal};
use final_network_sts::algorithms::util::Util;
use final_network_sts::datastructures::graph::edge::Edge;
use final_network_sts::datastructures::graph::mutable_graph::MutableGraph;
use final_network_sts::datastructures::graph::node::Node;

/// A generator of numbers that looks random and always gives the same numbers.
struct Numbers(u64);

impl Numbers {
    fn next(&mut self, below: u64) -> u64 {
        self.0 = self.0.wrapping_mul(6364136223846793005).wrapping_add(1442695040888963407);
        (self.0 >> 33) % below
    }
}

fn nodes(n: usize) -> Vec<Node> {
    (0..n).map(Node::default).collect()
}

/// A connected graph with inverted weights: a path and some more edges.
fn random_graph(numbers: &mut Numbers, n: usize, more: usize, weights: u64) -> Vec<Edge> {
    let mut edges = Vec::new();
    for v in 1..n {
        let w = 1 + numbers.next(weights) as i64;
        edges.push(Edge::new(v - 1, v).weight(-w).upgraded_weight(-w - numbers.next(5) as i64).cost(1 + numbers.next(6) as i64));
    }
    for _ in 0..more {
        let u = numbers.next(n as u64) as usize;
        let v = numbers.next(n as u64) as usize;
        if u != v {
            let w = 1 + numbers.next(weights) as i64;
            edges.push(Edge::new(u, v).weight(-w).upgraded_weight(-w - numbers.next(5) as i64).cost(1 + numbers.next(6) as i64));
        }
    }
    edges
}

#[test]
fn least_bottleneck_is_the_bottleneck_of_the_lightest_tree() {
    let mut numbers = Numbers(11);
    for round in 0..200 {
        let n = 2 + numbers.next(12) as usize;
        // few weights, so that many edges tie
        let more = numbers.next(25) as usize;
        let edges = random_graph(&mut numbers, n, more, 1 + round % 7);
        let mut graph = MutableGraph::new(nodes(n), edges.clone());
        let (tree, bottleneck) = MBST::run(&mut graph);
        let tree = tree.unwrap();
        assert!(tree.is_spanning_tree());
        assert_eq!(graph.edges(), &edges);
        let (lightest, _, expected) = Kruskal::run(&mut graph, CalculationType::Weight);
        assert!(lightest.unwrap().is_spanning_tree());
        assert_eq!(bottleneck, expected);
        assert_eq!(bottleneck, tree.edges().iter().map(|e| e.weight).max().unwrap());
    }
}

#[test]
fn equal_weights_give_that_weight_as_bottleneck() {
    let mut numbers = Numbers(3);
    for _ in 0..20 {
        let n = 2 + numbers.next(9) as usize;
        let edges: Vec<Edge> =
            random_graph(&mut numbers, n, 12, 9).iter().map(|e| e.weight(-7)).collect();
        let mut graph = MutableGraph::new(nodes(n), edges);
        let (tree, bottleneck) = MBST::run(&mut graph);
        assert!(tree.unwrap().is_spanning_tree());
        assert_eq!(bottleneck, -7);
    }
    // and with weights that are not inverted
    let edges = vec![Edge::new(0, 1).weight(4), Edge::new(1, 2).weight(4), Edge::new(0, 2).weight(4)];
    let (tree, bottleneck) = MBST::run(&mut MutableGraph::new(nodes(3), edges));
    assert!(tree.unwrap().is_spanning_tree());
    assert_eq!(bottleneck, 4);
}

#[test]
fn solvers_agree_in_bottleneck_and_cost() {
    let mut numbers = Numbers(5);
    for _ in 0..150 {
        let n = 2 + numbers.next(9) as usize;
        let more = numbers.next(14) as usize;
        let edges = random_graph(&mut numbers, n, more, 9);
        let budget = numbers.next(30) as i64;
        let duplicated = Util::duplicate_edges(&MutableGraph::new(nodes(n), edges.clone()));
        let total = duplicated.calculate_total_cost();
        let berman = Berman::run(&mut MutableGraph::new(nodes(n), duplicated.edges_copy()), budget);
        let punnen = Punnen::run(&mut MutableGraph::new(nodes(n), duplicated.edges_copy()), budget);
        let (tree, cost, bottleneck, _) =
            FastEdgeElimination::run(MutableGraph::new(nodes(n), duplicated.edges_copy()), budget);
        assert_eq!(berman.0.is_some(), tree.is_some());
        assert_eq!(berman.0.is_some(), punnen.0.is_some());
        assert_eq!((berman.1, berman.2), (cost, bottleneck));
        assert_eq!(berman.2, punnen.2);
        if total > budget as i128 {
            assert_eq!(berman.1, punnen.1);
        }
        let classic =
            EdgeEliminationOld::run(&mut MutableGraph::new(nodes(n), duplicated.edges_copy()), budget);
        assert_eq!(berman.0.is_some(), classic.0.is_some());
        assert_eq!(berman.2, classic.2);
        if total > budget as i128 {
            assert_eq!(berman.1, classic.1);
        }
        let between = EE::run(
            &mut MutableGraph::new(nodes(n), edges.clone()),
            &mut MutableGraph::new(nodes(n), duplicated.edges_copy()),
            budget,
        );
        assert_eq!(berman.0.is_some(), between.0.is_some());
        assert_eq!(berman.2, between.2);
        assert_eq!(berman.1, between.1);
        let (_, cost, bottleneck, _) =
            EE::run_test_bin(MutableGraph::new(nodes(n), duplicated.edges_copy()), budget);
        assert_eq!((berman.1, berman.2), (cost, bottleneck));
        if let Some(tree) = between.0 {
            assert!(tree.is_spanning_tree());
            assert_eq!(tree.calculate_total_cost(), between.1);
            assert!(between.1 <= budget as i128);
        }
    }
}

#[test]
fn upgrades_that_cannot_be_afforded_change_nothing() {
    let mut numbers = Numbers(8);
    for _ in 0..50 {
        let n = 2 + numbers.next(9) as usize;
        let edges = random_graph(&mut numbers, n, 10, 9);
        let mut graph = MutableGraph::new(nodes(n), edges);
        let (_, least) = MBST::run(&mut graph);
        let mut duplicated = Util::duplicate_edges(&graph);
        let (tree, cost, bottleneck) = Berman::run(&mut duplicated, 0);
        assert!(tree.unwrap().edges().iter().all(|e| !e.is_upgraded()));
        assert_eq!(cost, 0);
        assert_eq!(bottleneck, least);
    }
}
