use ctree::CTree;
use std::collections::BTreeMap;

fn leaf(key: u64, val: u64) -> CTree<u64> {
    CTree::Two { left: Box::new(CTree::Empty), key, val, right: Box::new(CTree::Empty) }
}

fn is_bottom(n: &CTree<u64>) -> bool {
    match n {
        CTree::Empty => true,
        CTree::Two { left, .. } => matches!(**left, CTree::Empty),
        CTree::Three { left, .. } => matches!(**left, CTree::Empty),
    }
}

fn build(keys: &[u64]) -> CTree<u64> {
    let mut t = CTree::new();
    for &k in keys {
        t.insert(k, k * 10);
    }
    t
}

#[test]
fn scenario_insert_seven_then_delete_internal() {
    let mut t = build(&[5, 3, 8, 1, 4, 7, 9]);
    for k in [5u64, 3, 8, 1, 4, 7, 9] {
        assert_eq!(t.search(&k), Some(&(k * 10)));
    }
    assert_eq!(t.search(&6), None);
    assert!(t.is_balanced());
    assert!(t.is_valid());
    // 5 sits in an inner node: deleting it goes through its successor.
    let holder = t.find_node_for_key(&5);
    assert!(!is_bottom(holder));
    t.delete(&5);
    assert!(t.is_balanced());
    assert!(t.is_valid());
    assert_eq!(t.search(&5), None);
    for k in [3u64, 8, 1, 4, 7, 9] {
        assert_eq!(t.search(&k), Some(&(k * 10)));
    }
    assert_eq!(t.in_order_keys(), vec![1, 3, 4, 7, 8, 9]);
}

#[test]
fn overwrite_keeps_one_entry() {
    let mut t = build(&[2, 6, 4]);
    t.insert(4, 1);
    t.insert(4, 2);
    assert_eq!(t.search(&4), Some(&2));
    assert_eq!(t.in_order_keys(), vec![2, 4, 6]);
    assert!(t.is_valid());
}

#[test]
fn insert_then_delete_restores_entries() {
    let mut t = build(&[10, 20, 30, 40, 50, 60]);
    let before = t.in_order_keys();
    t.insert(35, 0);
    assert_eq!(t.search(&35), Some(&0));
    t.delete(&35);
    assert_eq!(t.search(&35), None);
    assert_eq!(t.in_order_keys(), before);
    for k in [10u64, 20, 30, 40, 50, 60] {
        assert_eq!(t.search(&k), Some(&(k * 10)));
    }
    assert!(t.is_valid());
}

#[test]
fn in_order_is_ascending_and_complete() {
    let keys = [17u64, 3, 99, 42, 8, 56, 23, 71, 1, 64, 35, 12];
    let t = build(&keys);
    let mut sorted = keys.to_vec();
    sorted.sort();
    assert_eq!(t.in_order_keys(), sorted);
}

#[test]
fn delete_absent_key_is_noop() {
    let mut t = build(&[1, 2, 3]);
    t.delete(&7);
    assert_eq!(t.in_order_keys(), vec![1, 2, 3]);
    let mut e: CTree<u64> = CTree::new();
    e.delete(&1);
    assert!(e.is_empty());
}

#[test]
fn delete_everything_leaves_empty_tree() {
    let mut t = build(&[4, 2, 6, 1, 3, 5, 7]);
    for k in [4u64, 1, 7, 2, 6, 3, 5] {
        t.delete(&k);
        assert!(t.is_valid());
        assert_eq!(t.search(&k), None);
    }
    assert!(t.is_empty());
    assert_eq!(t.in_order_keys(), Vec::<u64>::new());
}

#[test]
fn empty_tree_searches_nothing() {
    let t: CTree<u64> = CTree::new();
    assert_eq!(t.search(&0), None);
    assert!(t.is_valid());
    assert!(t.is_empty());
}

#[test]
fn largest_key_is_stored() {
    let mut t = build(&[0, 1]);
    t.insert(u64::MAX, 5);
    assert_eq!(t.search(&u64::MAX), Some(&5));
    assert_eq!(t.search(&0), Some(&0));
    t.delete(&u64::MAX);
    assert_eq!(t.search(&u64::MAX), None);
}

#[test]
fn random_operations_match_a_reference_map() {
    let mut t: CTree<u64> = CTree::new();
    let mut m: BTreeMap<u64, u64> = BTreeMap::new();
    let mut x: u64 = 12345;
    for step in 0..3000u64 {
        x = x.wrapping_mul(6364136223846793005).wrapping_add(1442695040888963407);
        let k = (x >> 33) % 200;
        if (x >> 20) % 3 == 0 {
            t.delete(&k);
            m.remove(&k);
        } else {
            t.insert(k, step);
            m.insert(k, step);
        }
        assert!(t.is_valid());
        assert_eq!(t.search(&k), m.get(&k));
    }
    let keys: Vec<u64> = m.keys().cloned().collect();
    assert_eq!(t.in_order_keys(), keys);
    for k in 0..200u64 {
        assert_eq!(t.search(&k), m.get(&k));
    }
}

#[test]
fn ascending_and_descending_runs_stay_balanced() {
    let mut t: CTree<u64> = CTree::new();
    for k in 0..500u64 {
        t.insert(k, k);
        assert!(t.is_balanced());
    }
    for k in (0..500u64).rev() {
        if k % 2 == 0 {
            t.delete(&k);
            assert!(t.is_valid());
        }
    }
    let odd: Vec<u64> = (0..500u64).filter(|k| k % 2 == 1).collect();
    assert_eq!(t.in_order_keys(), odd);
}

#[test]
fn validator_rejects_misordered_tree() {
    let t = CTree::Two { left: Box::new(leaf(9, 0)), key: 5, val: 0, right: Box::new(leaf(7, 0)) };
    assert!(t.is_balanced());
    assert!(!t.is_valid());
    let u = CTree::Three {
        left: Box::new(leaf(1, 0)),
        key1: 6,
        val1: 0,
        mid: Box::new(leaf(4, 0)),
        key2: 8,
        val2: 0,
        right: Box::new(leaf(9, 0)),
    };
    assert!(!u.is_valid());
}

#[test]
fn validator_rejects_unbalanced_tree() {
    let t = CTree::Two { left: Box::new(leaf(4, 10)), key: 5, val: 20, right: Box::new(CTree::Empty) };
    assert!(!t.is_balanced());
    assert!(!t.is_valid());
    assert!(CTree::same_height(&leaf(1, 1), &leaf(2, 2)));
    assert!(!CTree::same_height(&t, &leaf(2, 2)));
}

#[test]
fn find_node_and_entry_index() {
    let t = build(&[10, 20, 30]);
    // root holds 20, its children 10 and 30
    let n = t.find_node_for_key(&30);
    assert_eq!(n.find_key_in_entries(&30), Some(0));
    let bottom = t.find_node_for_key(&25);
    assert_eq!(bottom.find_key_in_entries(&25), None);
    assert_eq!(bottom.find_key_in_entries(&30), Some(0));
    let mut u = build(&[10, 20]);
    assert_eq!(u.find_key_in_entries(&20), Some(1));
    assert_eq!(u.find_key_in_entries(&10), Some(0));
    u.insert(15, 0);
    assert_eq!(u.find_key_in_entries(&15), Some(0));
}
