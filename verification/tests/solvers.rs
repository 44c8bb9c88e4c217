use final_network_sts::algorithms::constrained_bottleneck_spanning_tree::berman::Berman;
use final_network_sts::algorithms::constrained_bottleneck_spanning_tree::edge_elimination::EdgeEliminationOld;
use final_network_sts::algorithms::constrained_bottleneck_spanning_tree::ee_fast::EE;
use final_network_sts::algorithms::constrained_bottleneck_spanning_tree::fast_edge_elimination::FastEdgeElimination;
use final_network_sts::algorithms::constrained_bottleneck_spanning_tree::punnen::{Bounds, Punnen};
use final_network_sts::algorithms::util::Util;
use final_network_sts::datastructures::graph::edge::Edge;
use final_network_sts::datastructures::graph::mutable_graph::MutableGraph;
use final_network_sts::datastructures::graph::node::Node;

/// Links as an instance file gives them: ends, weight, upgraded weight, upgrade cost.
type Link = (usize, usize, i64, i64, i64);

fn nodes(n: usize) -> Vec<Node> {
    (0..n).map(Node::default).collect()
}

/// The graph with the weights as they are given, not yet inverted.
fn load(n: usize, links: &[Link]) -> MutableGraph {
    let edges = links
        .iter()
        .map(|(u, v, k, k_bar, c)| Edge::new(*u, *v).weight(*k).upgraded_weight(*k_bar).cost(*c))
        .collect();
    MutableGraph::new(nodes(n), edges)
}

/// The inverted graph and the inverted graph with upgrades.
fn preprocessing(n: usize, links: &[Link]) -> (MutableGraph, MutableGraph) {
    let mut graph = load(n, links);
    graph.inverse_weights();
    let duplicated = Util::duplicate_edges(&graph);
    (graph, duplicated)
}

fn spans(n: usize, edges: &[&Edge]) -> bool {
    let mut label: Vec<usize> = (0..n).collect();
    for e in edges {
        let (a, b) = (label[e.either], label[e.other]);
        if a != b {
            for l in label.iter_mut() {
                if *l == b {
                    *l = a;
                }
            }
        }
    }
    label.iter().all(|l| *l == label[0])
}

/// The least bottleneck of a spanning tree within the budget, by trying every choice of
/// `n - 1` edges.
fn oracle(graph: &MutableGraph, budget: i64) -> Option<i64> {
    let n = graph.nodes().len();
    let edges = graph.edges();
    let m = edges.len();
    let mut best: Option<i64> = None;
    let mut pick: Vec<usize> = (0..n - 1).collect();
    if m < n - 1 {
        return None;
    }
    loop {
        let chosen: Vec<&Edge> = pick.iter().map(|i| &edges[*i]).collect();
        let cost: i64 = chosen.iter().map(|e| e.cost).sum();
        if cost <= budget && spans(n, &chosen) {
            let bottleneck = chosen.iter().map(|e| e.weight).max().unwrap();
            if best.map_or(true, |b| bottleneck < b) {
                best = Some(bottleneck);
            }
        }
        // next choice
        let mut i = n - 1;
        loop {
            if i == 0 {
                return best;
            }
            i -= 1;
            if pick[i] < m - (n - 1 - i) {
                pick[i] += 1;
                for j in i + 1..n - 1 {
                    pick[j] = pick[j - 1] + 1;
                }
                break;
            }
        }
    }
}

fn check_solution(graph: &MutableGraph, budget: i64, r: &(Option<MutableGraph>, i128, i64), expected: Option<i64>, who: &str) {
    match (&r.0, expected) {
        (Some(t), Some(bottleneck)) => {
            assert!(t.is_spanning_tree(), "{}: no spanning tree", who);
            assert_eq!(t.calculate_total_cost(), r.1, "{}: cost", who);
            assert!(r.1 <= budget as i128, "{}: over budget", who);
            assert_eq!(t.edges().iter().map(|e| e.weight).max().unwrap(), r.2, "{}: bottleneck of tree", who);
            for e in t.edges() {
                assert!(graph.edges().iter().any(|g| g == e), "{}: foreign edge", who);
            }
            assert_eq!(r.2, bottleneck, "{}: bottleneck", who);
        }
        (None, None) => {
            assert_eq!(r.1, 0, "{}", who);
            assert_eq!(r.2, 0, "{}", who);
        }
        (Some(_), None) => panic!("{}: found a tree where there is none", who),
        (None, Some(_)) => panic!("{}: found no tree", who),
    }
}

fn all_solvers_agree(n: usize, links: &[Link], budget: i64) -> Option<i64> {
    let (mut graph, reference) = preprocessing(n, links);
    let expected = oracle(&reference, budget);

    let (_, mut duplicated) = preprocessing(n, links);
    let r = Berman::run(&mut duplicated, budget);
    check_solution(&reference, budget, &r, expected, "berman");

    let (_, mut duplicated) = preprocessing(n, links);
    let r = Punnen::run(&mut duplicated, budget);
    check_solution(&reference, budget, &r, expected, "punnen");

    let (_, mut duplicated) = preprocessing(n, links);
    let (t, cost, bottleneck, bin) = EdgeEliminationOld::run(&mut duplicated, budget);
    assert_eq!(bin.len(), 0);
    check_solution(&reference, budget, &(t, cost, bottleneck), expected, "edge elimination");

    let (_, duplicated) = preprocessing(n, links);
    let (t, cost, bottleneck, mut bin) = FastEdgeElimination::run(duplicated, budget);
    bin.clear();
    assert_eq!(bin.len(), 0);
    check_solution(&reference, budget, &(t, cost, bottleneck), expected, "fast edge elimination");

    let (_, mut duplicated) = preprocessing(n, links);
    let r = EE::run(&mut graph, &mut duplicated, budget);
    check_solution(&reference, budget, &r, expected, "ee");

    let (_, duplicated) = preprocessing(n, links);
    let (t, cost, bottleneck, _) = EE::run_test_bin(duplicated, budget);
    check_solution(&reference, budget, &(t, cost, bottleneck), expected, "ee bisection");
    expected
}

const DIAMOND: [Link; 6] = [
    (0, 1, 10, 14, 5),
    (1, 2, 4, 9, 3),
    (2, 3, 7, 8, 2),
    (3, 0, 3, 12, 6),
    (0, 2, 6, 6, 0),
    (1, 3, 5, 11, 4),
];

#[test]
fn diamond_budgets() {
    // capacities grow with the budget; bottlenecks are inverted capacities
    assert_eq!(all_solvers_agree(4, &DIAMOND, 0), Some(-6));
    assert_eq!(all_solvers_agree(4, &DIAMOND, 2), Some(-6));
    assert_eq!(all_solvers_agree(4, &DIAMOND, 3), Some(-7));
    assert_eq!(all_solvers_agree(4, &DIAMOND, 5), Some(-8));
    assert_eq!(all_solvers_agree(4, &DIAMOND, 6), Some(-8));
    assert_eq!(all_solvers_agree(4, &DIAMOND, 7), Some(-9));
    assert_eq!(all_solvers_agree(4, &DIAMOND, 100), Some(-9));
}

#[test]
fn bottleneck_is_monotone_in_the_budget() {
    let mut last = i64::MAX;
    for budget in 0..30 {
        let bottleneck = all_solvers_agree(4, &DIAMOND, budget).unwrap();
        assert!(bottleneck <= last);
        last = bottleneck;
    }
}

/// A generator of numbers that looks random and always gives the same numbers.
struct Numbers(u64);

impl Numbers {
    fn next(&mut self, below: u64) -> u64 {
        self.0 = self.0.wrapping_mul(6364136223846793005).wrapping_add(1442695040888963407);
        (self.0 >> 33) % below
    }
}

#[test]
fn small_graphs_agree_with_exhaustive_search() {
    let mut numbers = Numbers(7);
    for _ in 0..60 {
        let n = 2 + numbers.next(4) as usize;
        let mut links: Vec<Link> = Vec::new();
        // a path, so that the graph is connected, and a few more links
        for v in 1..n {
            let k = 1 + numbers.next(9) as i64;
            links.push((v - 1, v, k, k + numbers.next(6) as i64, numbers.next(5) as i64));
        }
        for _ in 0..numbers.next(4) {
            let u = numbers.next(n as u64) as usize;
            let v = numbers.next(n as u64) as usize;
            if u != v {
                let k = 1 + numbers.next(9) as i64;
                links.push((u, v, k, k + numbers.next(6) as i64, numbers.next(5) as i64));
            }
        }
        let budget = numbers.next(12) as i64;
        all_solvers_agree(n, &links, budget);
    }
}

#[test]
fn single_node_has_the_empty_tree() {
    for budget in [0, 5] {
        let mut graph = MutableGraph::new(nodes(1), Vec::new());
        let r = Berman::run(&mut graph, budget);
        assert_eq!(r.0.unwrap().edges().len(), 0);
        assert_eq!((r.1, r.2), (0, 0));
        let r = Punnen::run(&mut graph, budget);
        assert_eq!(r.0.unwrap().edges().len(), 0);
        assert_eq!((r.1, r.2), (0, 0));
        let r = EdgeEliminationOld::run(&mut graph, budget);
        assert_eq!(r.0.unwrap().edges().len(), 0);
        assert_eq!((r.1, r.2), (0, 0));
        let r = FastEdgeElimination::run(graph, budget);
        assert_eq!(r.0.unwrap().edges().len(), 0);
        assert_eq!((r.1, r.2), (0, 0));
    }
}

#[test]
fn two_nodes_one_edge_returns_that_edge() {
    let mut graph = load(2, &[(0, 1, 9, 9, 0)]);
    graph.inverse_weights();
    let edge = graph.edges()[0];
    let r = Berman::run(&mut graph, 0);
    assert_eq!(r.0.unwrap().edges(), &vec![edge]);
    assert_eq!((r.1, r.2), (0, -9));
    let r = Punnen::run(&mut graph, 0);
    assert_eq!(r.0.unwrap().edges(), &vec![edge]);
    assert_eq!((r.1, r.2), (0, -9));
    let r = EdgeEliminationOld::run(&mut graph, 0);
    assert_eq!(r.0.unwrap().edges(), &vec![edge]);
    assert_eq!((r.1, r.2), (0, -9));
    let r = FastEdgeElimination::run(graph, 0);
    assert_eq!(r.0.unwrap().edges(), &vec![edge]);
    assert_eq!((r.1, r.2), (0, -9));
}

#[test]
fn disconnected_graph_has_no_solution() {
    let links = [(0, 1, 4, 6, 1), (2, 3, 5, 7, 1)];
    assert_eq!(all_solvers_agree(4, &links, 100), None);
}

#[test]
fn budget_zero_uses_edges_without_cost() {
    // every upgrade costs: only the primaries are left
    let links = [(0, 1, 4, 9, 1), (1, 2, 5, 9, 2), (0, 2, 3, 9, 3)];
    assert_eq!(all_solvers_agree(3, &links, 0), Some(-4));
    let (_, mut duplicated) = preprocessing(3, &links);
    let (t, cost, _) = Berman::run(&mut duplicated, 0);
    assert_eq!(cost, 0);
    assert!(t.unwrap().edges().iter().all(|e| !e.is_upgraded() && e.cost == 0));
}

#[test]
fn budget_too_small_for_any_tree() {
    // without upgrades: every edge costs, so that no tree is free
    let mut graph = load(3, &[(0, 1, 4, 4, 2), (1, 2, 5, 5, 2), (0, 2, 3, 3, 2)]);
    graph.inverse_weights();
    let r = Berman::run(&mut graph, 3);
    assert!(r.0.is_none());
    assert_eq!((r.1, r.2), (0, 0));
    let r = Punnen::run(&mut graph, 3);
    assert!(r.0.is_none());
    assert_eq!((r.1, r.2), (0, 0));
    let r = EdgeEliminationOld::run(&mut graph, 3);
    assert!(r.0.is_none());
    let r = FastEdgeElimination::run(graph, 3);
    assert!(r.0.is_none());
}

#[test]
fn searches_through_given_pivots() {
    let (_, duplicated) = preprocessing(4, &DIAMOND);
    let mut pivots = Util::unique_weight_list(duplicated.edges(), i64::MIN, 0);
    Util::sort_unique(&mut pivots);
    assert_eq!(pivots, vec![-14, -12, -11, -10, -9, -8, -7, -6, -5, -4, -3]);
    let expected = oracle(&duplicated, 5);
    let r = Berman::naive_search(&duplicated, &pivots, 5);
    check_solution(&duplicated, 5, &r, expected, "naive search");
    let r = Berman::bisection_search(&duplicated, &pivots, 5);
    check_solution(&duplicated, 5, &r, expected, "bisection search");
    let (_, mut graph) = preprocessing(4, &DIAMOND);
    let r = EE::dbs(&mut graph, &pivots, 5);
    check_solution(&duplicated, 5, &r, expected, "dbs");
    // edges above the bottleneck that was found are gone
    assert!(graph.edges().len() < duplicated.edges().len());
    let (_, mut graph) = preprocessing(4, &DIAMOND);
    let r = EE::dual_bound_search(&mut graph, &pivots, 5);
    check_solution(&duplicated, 5, &r, expected, "dual bound search");
    let (_, mut graph) = preprocessing(4, &DIAMOND);
    // the window starts below the least bottleneck of all, which is -9
    let r = EE::recursion(&mut graph, &pivots, 5, -10, 0);
    check_solution(&duplicated, 5, &r, expected, "recursion");
    // a window that starts too low runs into edges that do not span
    let r = EE::recursion(&mut graph, &pivots, 5, i64::MIN, 0);
    assert!(r.0.is_none());
    let (_, graph) = preprocessing(4, &DIAMOND);
    let (t, cost, bottleneck, bin) = EE::bisection_alternative(graph, &pivots, 5, -14, -3);
    check_solution(&duplicated, 5, &(t, cost, bottleneck), expected, "bisection alternative");
    assert!(bin.len() <= pivots.len());
    let (_, graph) = preprocessing(4, &DIAMOND);
    let (t, cost, bottleneck, bin) = FastEdgeElimination::bisection_elimination_search(graph, &pivots, 5);
    check_solution(&duplicated, 5, &(t, cost, bottleneck), expected, "bisection elimination");
    assert!(bin.len() >= 1);
    // no pivot at all: no solution
    let none: Vec<i64> = Vec::new();
    assert!(Berman::naive_search(&duplicated, &none, 5).0.is_none());
    assert!(Berman::bisection_search(&duplicated, &none, 5).0.is_none());
}

#[test]
fn punnen_in_two_steps() {
    // the whole graph is within the budget: the bounds give the answer
    let (_, mut duplicated) = preprocessing(4, &DIAMOND);
    match Punnen::bounds(&mut duplicated, 1000) {
        Bounds::Done((tree, _, bottleneck)) => {
            assert!(tree.unwrap().is_spanning_tree());
            assert_eq!(bottleneck, -9);
        }
        Bounds::Open { .. } => panic!("the bounds give the answer"),
    }
    // a budget in between: the search is left open, and ends at the answer
    let (_, mut duplicated) = preprocessing(4, &DIAMOND);
    match Punnen::bounds(&mut duplicated, 5) {
        Bounds::Done(_) => panic!("the bounds leave the search open"),
        Bounds::Open { lower_bound, upper_bound, union_edges, unique_weights, best } => {
            // the least bottleneck of all, and the bottleneck of the cheapest tree
            assert_eq!((lower_bound, upper_bound), (-9, -5));
            assert_eq!(best.1, 0);
            let r = Punnen::recursive_find(
                &duplicated,
                5,
                lower_bound,
                upper_bound,
                union_edges,
                &unique_weights,
                best,
            );
            assert_eq!(r.2, -8);
            assert_eq!(r.1, 5);
        }
    }
}

#[test]
fn solvers_leave_the_graph_as_they_say() {
    let (_, reference) = preprocessing(4, &DIAMOND);
    let (_, mut graph) = preprocessing(4, &DIAMOND);
    Berman::run(&mut graph, 5);
    assert_eq!(graph.edges(), reference.edges());
    Punnen::run(&mut graph, 5);
    let mut by_cost = reference.edges_copy();
    by_cost.sort_by_key(|e| (e.cost, e.either, e.other, e.weight));
    assert_eq!(graph.edges(), &by_cost);
    let (_, mut graph) = preprocessing(4, &DIAMOND);
    EdgeEliminationOld::run(&mut graph, 5);
    assert!(graph.edges().iter().all(|e| reference.edges().contains(e)));
}

#[test]
fn graph_within_the_budget_gives_the_lightest_tree() {
    // where all edges together are within the budget, the searches that start from
    // bounds hand back the spanning tree of least bottleneck as it was found, which
    // need not be the cheapest
    let edges = vec![
        Edge::new(0, 1).weight(-3).cost(0),
        Edge::new(1, 2).weight(-3).cost(1),
        Edge::new(0, 2).weight(-3).cost(0),
    ];
    let berman = Berman::run(&mut MutableGraph::new(nodes(3), edges.clone()), 10);
    assert_eq!((berman.1, berman.2), (0, -3));
    let punnen = Punnen::run(&mut MutableGraph::new(nodes(3), edges.clone()), 10);
    assert_eq!((punnen.1, punnen.2), (1, -3));
    let tree = punnen.0.unwrap();
    assert!(tree.is_spanning_tree());
    assert_eq!(tree.calculate_total_cost(), 1);
    // a smaller budget makes them look for the cheapest tree
    let punnen = Punnen::run(&mut MutableGraph::new(nodes(3), edges), 0);
    assert_eq!((punnen.1, punnen.2), (0, -3));
}
