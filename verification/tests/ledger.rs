use trace_constraints::ledger::Ledger;

#[test]
fn elements_start_apart() {
    let ledger = Ledger::new(4);
    assert_eq!(ledger.len(), 4);
    for i in 0..4 {
        assert_eq!(ledger.find(i), i);
        for j in 0..4 {
            assert_eq!(ledger.connected(i, j), i == j);
        }
    }
}

#[test]
fn unions_join_classes_transitively() {
    let mut ledger = Ledger::new(6);
    ledger.union(0, 1);
    ledger.union(3, 4);
    assert!(ledger.connected(1, 0));
    assert!(!ledger.connected(1, 3));
    ledger.union(4, 1);
    for (i, j) in [(0, 3), (0, 4), (1, 3), (3, 0)] {
        assert!(ledger.connected(i, j));
    }
    for i in [0, 1, 3, 4] {
        assert!(!ledger.connected(i, 2));
        assert!(!ledger.connected(5, i));
        assert_eq!(ledger.find(i), ledger.find(0));
    }
    assert_eq!(ledger.find(2), 2);
    assert_eq!(ledger.find(5), 5);
}

#[test]
fn joining_a_class_with_itself_changes_nothing() {
    let mut ledger = Ledger::new(3);
    ledger.union(0, 1);
    let root = ledger.find(0);
    ledger.union(1, 0);
    ledger.union(1, 1);
    ledger.union(2, 2);
    assert_eq!(ledger.find(0), root);
    assert_eq!(ledger.find(1), root);
    assert!(!ledger.connected(0, 2));
    assert_eq!(ledger.len(), 3);
}

#[test]
fn a_long_chain_is_one_class() {
    let n = 1000;
    let mut ledger = Ledger::new(n);
    for i in (0..n - 1).rev() {
        ledger.union(i, i + 1);
    }
    let root = ledger.find(0);
    for i in 0..n {
        assert_eq!(ledger.find(i), root);
    }
}
