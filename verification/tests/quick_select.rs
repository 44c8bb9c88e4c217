use final_network_sts::algorithms::quick_select::QuickSelect;
use final_network_sts::datastructures::graph::edge::Edge;

#[test]
fn test_quick_select() {
    let mut array = vec![
        Edge::new(0, 1).weight(2),
        Edge::new(0, 2).weight(1),
        Edge::new(0, 3).weight(5),
        Edge::new(0, 4).weight(4),
        Edge::new(0, 5).weight(3),
    ];
    assert_eq!(QuickSelect::find_median_edges(&mut array).get_weight(), 3);
}

#[test]
fn test2_quick_select() {
    let mut array = vec![
        Edge::new(0, 1).weight(1),
        Edge::new(0, 2).weight(2),
        Edge::new(0, 3).weight(3),
        Edge::new(0, 4).weight(4),
        Edge::new(0, 5).weight(5),
        Edge::new(0, 5).weight(5),
    ];
    assert_eq!(QuickSelect::find_median_edges(&mut array).get_weight(), 3);
}

#[test]
fn median_edges_mut_keeps_the_edges() {
    let edges: Vec<Edge> = [9, -3, 7, 7, 0, 12, -8, 4].iter().map(|w| Edge::new(1, 2).weight(*w)).collect();
    for _ in 0..20 {
        let mut array = edges.clone();
        let median = QuickSelect::find_median_edges_mut(&mut array);
        // sorted: -8 -3 0 4 7 7 9 12, and the median place is 3
        assert_eq!(median.get_weight(), 4);
        let mut before: Vec<i64> = edges.iter().map(|e| e.weight).collect();
        let mut after: Vec<i64> = array.iter().map(|e| e.weight).collect();
        before.sort();
        after.sort();
        assert_eq!(before, after);
    }
}

#[test]
fn median_edge_ties_are_broken_by_the_ends() {
    let mut array = vec![Edge::new(2, 3).weight(1), Edge::new(0, 5).weight(1), Edge::new(0, 4).weight(1)];
    assert_eq!(QuickSelect::find_median_edges(&mut array).endpoints(), (0, 5));
    assert!(QuickSelect::edge_before(&Edge::new(0, 4).weight(1), &Edge::new(0, 5).weight(1)));
    assert!(!QuickSelect::edge_before(&Edge::new(0, 5).weight(1), &Edge::new(0, 5).weight(1)));
    assert!(QuickSelect::edge_before(&Edge::new(9, 9).weight(0), &Edge::new(0, 0).weight(1)));
    assert!(QuickSelect::edge_before(&Edge::new(1, 1), &Edge::new(1, 1).upgraded(true)));
}

#[test]
fn median_of_numbers() {
    let mut one = vec![5];
    assert_eq!(QuickSelect::find_median_f64(&mut one), 5);
    let mut two = vec![8, 3];
    assert_eq!(QuickSelect::find_median_f64(&mut two), 3);
    let mut odd = vec![4, 1, 9, 7, 2];
    assert_eq!(QuickSelect::find_median_f64(&mut odd), 4);
    let mut even = vec![4, 1, 9, 7, 2, 6];
    assert_eq!(QuickSelect::find_median_f64(&mut even), 4);
    let mut same = vec![3, 3, 3, 3];
    assert_eq!(QuickSelect::find_median_f64(&mut same), 3);
    let mut wide = vec![i64::MAX, i64::MIN, 0];
    assert_eq!(QuickSelect::find_median_f64(&mut wide), 0);
}

#[test]
fn median_of_numbers_is_found_again() {
    let mut xs = vec![10, -4, 6, 6, 2, 33, 1, 0, -9];
    let first = QuickSelect::find_median_f64(&mut xs);
    let mut kept = xs.clone();
    kept.sort();
    assert_eq!(kept, vec![-9, -4, 0, 1, 2, 6, 6, 10, 33]);
    assert_eq!(first, 2);
    assert_eq!(QuickSelect::find_median_f64(&mut xs), first);
    assert_eq!(QuickSelect::find_median_f64(&mut xs), first);
}
