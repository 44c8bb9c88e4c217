use final_network_sts::datastructures::uf::union_find::UF;
use final_network_sts::error::InvalidInput;

#[test]
fn test_uf() {
    let mut uf = UF::new(10).unwrap();
    assert_eq!(uf.count(), 10);
    assert_eq!(uf.connected(1, 2), false);
    uf.union(1, 2);
    assert_eq!(uf.connected(1, 2), true);
    assert_eq!(uf.count(), 9);
    assert_eq!(uf.connected(1, 3), false);
    uf.union(1, 3);
    assert_eq!(uf.connected(1, 3), true);
    assert_eq!(uf.count(), 8);
    assert_eq!(uf.connected(1, 4), false);
    uf.union(1, 4);
    assert_eq!(uf.connected(1, 4), true);
    assert_eq!(uf.count(), 7);
    assert_eq!(uf.connected(1, 5), false);
    uf.union(1, 5);
    assert_eq!(uf.connected(1, 5), true);
    assert_eq!(uf.count(), 6);
    assert_eq!(uf.connected(1, 6), false);
    uf.union(1, 6);
    assert_eq!(uf.connected(1, 6), true);
    assert_eq!(uf.count(), 5);
    assert_eq!(uf.connected(1, 7), false);
    uf.union(1, 7);
    assert_eq!(uf.connected(1, 7), true);
    assert_eq!(uf.count(), 4);
    assert_eq!(uf.connected(1, 8), false);
    uf.union(1, 8);
    assert_eq!(uf.connected(1, 8), true);
    assert_eq!(uf.count(), 3);
    assert_eq!(uf.connected(1, 9), false);
    uf.union(1, 9);
    assert_eq!(uf.connected(1, 9), true);
    assert_eq!(uf.count(), 2);
    assert_eq!(uf.connected(1, 0), false);
    uf.union(1, 0);
    assert_eq!(uf.connected(1, 0), true);
    assert_eq!(uf.count(), 1);
}

#[test]
fn test_parent() {
    let mut uf = UF::new(5).unwrap();
    uf.union(0, 1);
    uf.union(1, 2);
    assert_eq!(uf.find(0), uf.find(2));
}

#[test]
fn uf_new_rejects_negative_size() {
    assert!(matches!(UF::new(-1), Err(InvalidInput::NegativeSize)));
    assert!(matches!(UF::new(i32::MIN), Err(InvalidInput::NegativeSize)));
    assert!(UF::new(0).is_ok());
}

#[test]
fn uf_new_starts_with_singletons() {
    let mut uf = UF::new(4).unwrap();
    for i in 0..4 {
        assert_eq!(uf.find(i), i);
    }
    assert_eq!(uf.count(), 4);
}

#[test]
fn uf_smaller_class_joins_larger() {
    let mut uf = UF::new(6).unwrap();
    // equal sizes: the class of the second joins that of the first
    uf.union(0, 1);
    assert_eq!(uf.find(1), 0);
    assert_eq!(uf.find(0), 0);
    uf.union(2, 0);
    // {2} is smaller than {0, 1}
    assert_eq!(uf.find(2), 0);
    uf.union(3, 4);
    assert_eq!(uf.find(4), 3);
    // {3, 4} is smaller than {0, 1, 2}
    uf.union(4, 1);
    assert_eq!(uf.find(3), 0);
    assert_eq!(uf.find(4), 0);
    assert_eq!(uf.count(), 2);
    // uniting what is united changes nothing
    uf.union(3, 2);
    assert_eq!(uf.count(), 2);
    assert_eq!(uf.connected(5, 0), false);
}
