use avl_index_tree::AvlTree;
use avl_index_tree::DuplicateValue;
use avl_index_tree::NotFound;

#[test]
fn empty_tree() {
    let t = AvlTree::new();
    assert!(t.is_empty());
    assert_eq!(t.len(), 0);
    assert_eq!(t.height(), 0);
    assert!(!t.contains(5));
    assert_eq!(t.in_order(), Vec::<u64>::new());
}

#[test]
fn single_value() {
    let mut t = AvlTree::new();
    assert_eq!(t.insert(42), Ok(()));
    assert!(!t.is_empty());
    assert_eq!(t.len(), 1);
    assert_eq!(t.height(), 1);
    assert!(t.contains(42));
    assert!(!t.contains(41));
    assert_eq!(t.in_order(), vec![42]);
}

#[test]
fn scenario_mixed_inserts() {
    let mut t = AvlTree::new();
    for v in [5u64, 3, 8, 1, 4, 7, 9] {
        assert_eq!(t.insert(v), Ok(()));
    }
    assert_eq!(t.in_order(), vec![1, 3, 4, 5, 7, 8, 9]);
    assert_eq!(t.height(), 3);
}

#[test]
fn scenario_ascending_inserts() {
    let mut t = AvlTree::new();
    for v in 1u64..=7 {
        assert_eq!(t.insert(v), Ok(()));
    }
    assert_eq!(t.len(), 7);
    assert_eq!(t.height(), 3);
    assert_eq!(t.in_order(), vec![1, 2, 3, 4, 5, 6, 7]);
}

#[test]
fn scenario_remove_inner_value() {
    let mut t = AvlTree::new();
    for v in [10u64, 20, 30, 40, 50, 25] {
        assert_eq!(t.insert(v), Ok(()));
    }
    assert_eq!(t.remove(30), Ok(()));
    assert!(!t.contains(30));
    assert_eq!(t.len(), 5);
    let ord = t.in_order();
    assert_eq!(ord, vec![10, 20, 25, 40, 50]);
    for w in ord.windows(2) {
        assert!(w[0] < w[1]);
    }
    assert!(t.height() <= 3);
}

#[test]
fn scenario_remove_from_empty() {
    let mut t = AvlTree::new();
    assert_eq!(t.remove(1), Err(NotFound));
    assert_eq!(t.len(), 0);
}

#[test]
fn duplicate_insert_rejected() {
    let mut t = AvlTree::new();
    assert_eq!(t.insert(7), Ok(()));
    assert_eq!(t.len(), 1);
    assert_eq!(t.insert(7), Err(DuplicateValue));
    assert_eq!(t.len(), 1);
    assert!(t.contains(7));
}

#[test]
fn insert_remove_round_trip() {
    let mut t = AvlTree::new();
    for v in [2u64, 9, 4] {
        assert_eq!(t.insert(v), Ok(()));
    }
    let before = t.len();
    assert_eq!(t.insert(6), Ok(()));
    assert_eq!(t.remove(6), Ok(()));
    assert_eq!(t.len(), before);
    assert!(!t.contains(6));
    assert!(t.contains(2) && t.contains(4) && t.contains(9));
}

#[test]
fn remove_absent_value() {
    let mut t = AvlTree::new();
    for v in [1u64, 2, 3] {
        assert_eq!(t.insert(v), Ok(()));
    }
    assert_eq!(t.remove(99), Err(NotFound));
    assert_eq!(t.len(), 3);
    assert_eq!(t.in_order(), vec![1, 2, 3]);
}

#[test]
fn in_order_sorted_after_shuffled_inserts() {
    let mut t = AvlTree::new();
    for v in [13u64, 2, 29, 7, 5, 23, 3, 17, 11, 19] {
        assert_eq!(t.insert(v), Ok(()));
    }
    let ord = t.in_order();
    assert_eq!(ord, vec![2, 3, 5, 7, 11, 13, 17, 19, 23, 29]);
    for w in ord.windows(2) {
        assert!(w[0] < w[1]);
    }
}

#[test]
fn removing_each_value_in_turn() {
    let mut t = AvlTree::new();
    let values = [8u64, 4, 12, 2, 6, 10, 14, 1, 3, 5, 7];
    for v in values {
        assert_eq!(t.insert(v), Ok(()));
    }
    let mut remaining: Vec<u64> = values.to_vec();
    for v in values {
        assert_eq!(t.remove(v), Ok(()));
        remaining.retain(|x| *x != v);
        assert_eq!(t.len(), remaining.len());
        assert!(!t.contains(v));
        let mut expected = remaining.clone();
        expected.sort();
        assert_eq!(t.in_order(), expected);
    }
    assert!(t.is_empty());
    assert_eq!(t.height(), 0);
}

#[test]
fn height_stays_logarithmic() {
    let mut t = AvlTree::new();
    for v in 0u64..128 {
        assert_eq!(t.insert(v), Ok(()));
    }
    assert_eq!(t.len(), 128);
    assert_eq!(t.height(), 8);
    for v in 0u64..64 {
        assert_eq!(t.remove(v), Ok(()));
    }
    assert_eq!(t.len(), 64);
    let ord = t.in_order();
    assert_eq!(ord.len(), 64);
    for w in ord.windows(2) {
        assert!(w[0] < w[1]);
    }
    assert!(t.height() <= 8);
}

#[test]
fn extreme_values() {
    let mut t = AvlTree::new();
    assert_eq!(t.insert(u64::MAX), Ok(()));
    assert_eq!(t.insert(0), Ok(()));
    assert_eq!(t.insert(u64::MAX - 1), Ok(()));
    assert_eq!(t.in_order(), vec![0, u64::MAX - 1, u64::MAX]);
    assert_eq!(t.remove(u64::MAX), Ok(()));
    assert_eq!(t.in_order(), vec![0, u64::MAX - 1]);
}
