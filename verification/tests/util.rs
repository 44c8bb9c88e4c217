use final_network_sts::algorithms::util::{PivotResult, Util};
use final_network_sts::datastructures::graph::edge::{Edge, INFINITY, NEG_INFINITY};
use final_network_sts::datastructures::graph::mutable_graph::MutableGraph;
use final_network_sts::datastructures::graph::node::Node;

fn nodes(n: usize) -> Vec<Node> {
    (0..n).map(Node::default).collect()
}

fn sorted(mut v: Vec<i64>) -> Vec<i64> {
    v.sort();
    v
}

#[test]
fn unique_weights_between_bounds() {
    let edges: Vec<Edge> =
        [-5, -2, -5, 0, 3, -9, -2, -7].iter().map(|w| Edge::new(0, 1).weight(*w)).collect();
    // the lower bound is left out, the upper one is not
    assert_eq!(sorted(Util::unique_weight_list(&edges, -7, -2)), vec![-5, -2]);
    assert_eq!(sorted(Util::unique_weight_list(&edges, NEG_INFINITY, 0)), vec![-9, -7, -5, -2, 0]);
    assert_eq!(sorted(Util::unique_weight_list(&edges, 3, INFINITY)), Vec::<i64>::new());
    assert_eq!(sorted(Util::unique_weight_list(&edges, 2, 3)), vec![3]);
    assert_eq!(sorted(Util::unique_weight_list(&Vec::new(), NEG_INFINITY, 0)), Vec::<i64>::new());
}

#[test]
fn unique_weights_from_a_threshold() {
    let edges: Vec<Edge> =
        [-5, -2, -5, 0, 3, -9, -2, -7].iter().map(|w| Edge::new(0, 1).weight(*w)).collect();
    assert_eq!(sorted(Util::unique_weight_list_above_or_eq(&edges, -5)), vec![-5, -2, 0, 3]);
    assert_eq!(sorted(Util::unique_weight_list_above_or_eq(&edges, 4)), Vec::<i64>::new());
    assert_eq!(sorted(Util::unique_weight_list_above_or_eq(&edges, i64::MIN)), vec![-9, -7, -5, -2, 0, 3]);
}

#[test]
fn sort_unique_sorts() {
    let mut weights = vec![4, -1, 9, 0, -30];
    Util::sort_unique(&mut weights);
    assert_eq!(weights, vec![-30, -1, 0, 4, 9]);
    let mut none: Vec<i64> = Vec::new();
    Util::sort_unique(&mut none);
    assert!(none.is_empty());
}

#[test]
fn relevant_slice_keeps_the_order() {
    let weights = vec![7, 1, 5, 9, 3, 5];
    assert_eq!(Util::relevant_slice(&weights, 1, 7), vec![7, 5, 3, 5]);
    assert_eq!(Util::relevant_slice(&weights, 9, 20), Vec::<i64>::new());
    assert_eq!(Util::relevant_slice(&weights, 0, 1), vec![1]);
    assert_eq!(Util::relevant_slice(&weights, 5, 5), Vec::<i64>::new());
}

#[test]
fn update_bottleneck_takes_the_larger_or_the_smaller() {
    let e = Edge::new(0, 1).weight(-4);
    assert_eq!(Util::update_bottleneck(-9, &e, true), -4);
    assert_eq!(Util::update_bottleneck(-2, &e, true), -2);
    assert_eq!(Util::update_bottleneck(NEG_INFINITY, &e, true), -4);
    assert_eq!(Util::update_bottleneck(-9, &e, false), -9);
    assert_eq!(Util::update_bottleneck(-2, &e, false), -4);
    assert_eq!(Util::update_bottleneck(INFINITY, &e, false), -4);
    assert_eq!(Util::update_bottleneck(-4, &e, true), -4);
}

#[test]
fn union_edges_drops_repeats() {
    let a = Edge::new(0, 1).weight(1).upgraded_weight(2).cost(3);
    let b = Edge::new(0, 1).weight(1).upgraded_weight(2).cost(4);
    let c = Edge::new(1, 0).weight(1).upgraded_weight(2).cost(3);
    // equal to `a` in ends, weights and cost
    let a2 = a.or_weight(8).upgraded(true);
    let union = Util::union_edges(&vec![a, b, a2], &vec![c, b, a]);
    assert_eq!(union.len(), 3);
    assert_eq!(union, vec![a, b, c]);
    // the first of two equal edges stays
    assert_eq!(union[0].or_weight, 0);
    let union = Util::union_edges(&vec![a2], &vec![a]);
    assert_eq!(union.len(), 1);
    assert_eq!(union[0].or_weight, 8);
    assert!(Util::union_edges(&Vec::new(), &Vec::new()).is_empty());
    assert_eq!(Util::union_edges(&Vec::new(), &vec![c, c]), vec![c]);
}

#[test]
fn duplicate_edges_makes_both_copies() {
    let graph = MutableGraph::new(
        nodes(3),
        vec![
            Edge::new(0, 1).weight(-5).upgraded_weight(-8).cost(3).set_original_endpoints(2, 2),
            Edge::new(1, 2).weight(-4).upgraded_weight(-4).cost(0),
        ],
    );
    let duplicated = Util::duplicate_edges(&graph);
    assert_eq!(duplicated.nodes().len(), 3);
    let copies = duplicated.edges();
    assert_eq!(copies.len(), 4);
    let plain = copies[0];
    assert_eq!(plain.endpoints(), (0, 1));
    assert_eq!(plain.original_endpoints(), (0, 1));
    assert_eq!((plain.weight, plain.cost, plain.or_weight, plain.upgraded), (-5, 0, -5, false));
    let upgraded = copies[1];
    assert_eq!(upgraded.endpoints(), (0, 1));
    assert_eq!((upgraded.weight, upgraded.cost, upgraded.or_weight, upgraded.upgraded), (-8, 3, -5, true));
    assert_eq!((copies[2].weight, copies[2].cost, copies[2].upgraded), (-4, 0, false));
    assert_eq!((copies[3].weight, copies[3].cost, copies[3].upgraded), (-4, 0, true));
    assert_eq!(copies[3].endpoints(), (1, 2));
    // a second pass duplicates the copies as edges of their own
    assert_eq!(Util::duplicate_edges(&duplicated).edges().len(), 8);
    assert_eq!(Util::duplicate_edges(&MutableGraph::new(nodes(1), Vec::new())).edges().len(), 0);
}

#[test]
fn check_pivot_probes_the_edges_below_the_pivot() {
    let graph = MutableGraph::new(
        nodes(3),
        vec![
            Edge::new(0, 1).weight(-9).cost(5),
            Edge::new(1, 2).weight(-7).cost(1),
            Edge::new(0, 2).weight(-3).cost(2),
            Edge::new(0, 1).weight(-1).cost(0),
        ],
    );
    // below -9 and -7: one edge, no tree
    assert!(matches!(Util::check_pivot(&graph, -9, 100), PivotResult::Infeasible));
    // up to -7: a tree that costs 6
    assert!(matches!(Util::check_pivot(&graph, -7, 5), PivotResult::Infeasible));
    match Util::check_pivot(&graph, -7, 6) {
        PivotResult::Feasible((tree, cost, bottleneck)) => {
            assert!(tree.is_spanning_tree());
            assert_eq!((cost, bottleneck), (6, -7));
        }
        PivotResult::Infeasible => panic!("a tree is there"),
    }
    // up to -3: the cheapest tree costs 3
    match Util::check_pivot(&graph, -3, 3) {
        PivotResult::Feasible((tree, cost, bottleneck)) => {
            assert_eq!(tree.edges().len(), 2);
            assert_eq!((cost, bottleneck), (3, -3));
        }
        PivotResult::Infeasible => panic!("a tree is there"),
    }
    // all edges: the cheapest tree costs 1
    match Util::check_pivot(&graph, 0, 1) {
        PivotResult::Feasible((_, cost, bottleneck)) => assert_eq!((cost, bottleneck), (1, -1)),
        PivotResult::Infeasible => panic!("a tree is there"),
    }
    assert!(matches!(Util::check_pivot(&graph, 0, 0), PivotResult::Infeasible));
}
