use ds::avl_tree_map::AvlTreeMap;
use rand::{rng, Rng};
use std::collections::BTreeMap;

#[test]
fn lib_test_insert_and_contains() {
    let mut tree = AvlTreeMap::new();
    assert!(!tree.contains_key(&3));
    assert!(!tree.contains_key(&1));
    assert!(!tree.contains_key(&4));
    assert!(!tree.contains_key(&5));
    assert!(!tree.contains_key(&100));
    assert!(tree.insert(3, 2));
    assert!(tree.insert(1, 7));
    assert!(tree.insert(4, 1));
    assert!(!tree.insert(1, 8));
    assert!(tree.insert(5, 2));
    assert!(tree.contains_key(&3));
    assert!(tree.contains_key(&1));
    assert!(tree.contains_key(&4));
    assert!(tree.contains_key(&5));
    assert!(!tree.contains_key(&100));
}

#[test]
fn lib_test_remove() {
    let mut tree = AvlTreeMap::new();
    for (k, v) in [(52, 0), (73, 1), (63, 2), (27, 3), (44, 4)] {
        assert!(tree.insert(k, v));
    }
    assert!(tree.remove(&44));
    assert!(tree.remove(&52));
    assert!(!tree.remove(&100));
    assert!(!tree.remove(&44));
    assert_eq!(tree.len(), 3);
    assert!(tree.iter().into_iter().eq([(27, 3), (63, 2), (73, 1)]));
}

#[test]
fn lib_test_get_nth() {
    let mut tree = AvlTreeMap::new();
    for k in [1, 3, 5, 7, 9] {
        tree.insert(k, k * 10);
    }
    let entries = tree.iter();
    assert_eq!(entries[0], (1, 10));
    assert_eq!(entries[1], (3, 30));
    assert_eq!(entries[2], (5, 50));
    assert_eq!(entries[3], (7, 70));
    assert_eq!(entries[4], (9, 90));
    assert_eq!(entries.get(5), None);
}

#[test]
fn lib_test_get_nth_back() {
    let mut tree = AvlTreeMap::new();
    for k in [2, 4, 6, 8, 10] {
        tree.insert(k, -k);
    }
    let entries = tree.iter();
    assert_eq!(entries[entries.len() - 1], (10, -10));
    assert_eq!(entries[entries.len() - 2], (8, -8));
    assert_eq!(entries[entries.len() - 5], (2, -2));
}

#[test]
fn lib_test_append() {
    let mut tree1 = AvlTreeMap::new();
    for k in [1, 3, 5] {
        tree1.insert(k, k * 10);
    }
    let mut tree2 = AvlTreeMap::new();
    for k in [2, 4, 6] {
        tree2.insert(k, k * 10);
    }
    tree1.append(&mut tree2);
    assert!(tree1.iter().into_iter().eq([(1, 10), (2, 20), (3, 30), (4, 40), (5, 50), (6, 60)]));
    assert!(tree2.is_empty());

    // Where both sides bind the same key, the left map's binding wins.
    let mut tree1 = AvlTreeMap::new();
    tree1.insert(7, 1);
    let mut tree2 = AvlTreeMap::new();
    tree2.insert(7, 2);
    tree2.insert(8, 3);
    tree1.append(&mut tree2);
    assert!(tree1.iter().into_iter().eq([(7, 1), (8, 3)]));
}

#[test]
fn lib_test_split_off() {
    let mut tree1 = AvlTreeMap::new();
    for k in [1, 2, 3, 4, 5, 6] {
        tree1.insert(k, k as i32);
    }
    let tree2 = tree1.split_off(&4);
    assert!(tree1.iter().into_iter().eq([(1, 1), (2, 2), (3, 3)]));
    assert!(tree2.iter().into_iter().eq([(4, 4), (5, 5), (6, 6)]));

    let mut tree1 = AvlTreeMap::new();
    for k in [2, 4, 6, 8, 10] {
        tree1.insert(k, 0);
    }
    let tree2 = tree1.split_off(&5);
    assert!(tree1.iter().into_iter().eq([(2, 0), (4, 0)]));
    assert!(tree2.iter().into_iter().eq([(6, 0), (8, 0), (10, 0)]));
}

#[test]
fn lib_test_random() {
    let mut rng = rng();

    for _ in 0..5 {
        let mut avl = AvlTreeMap::new();
        let mut b: BTreeMap<i64, i32> = BTreeMap::new();
        for _ in 0..1000 {
            // 0: insert
            // 1: contains
            // 2: remove
            // 3: get
            let t = rng.random_range(0..4);
            let k: i64 = rng.random_range(-100..=100);
            match t {
                0 => {
                    let v: i32 = rng.random_range(-100..=100);
                    let fresh = !b.contains_key(&k);
                    if fresh {
                        b.insert(k, v);
                    }
                    assert_eq!(fresh, avl.insert(k, v));
                }
                1 => {
                    assert_eq!(b.contains_key(&k), avl.contains_key(&k));
                }
                2 => {
                    assert_eq!(b.remove(&k).is_some(), avl.remove(&k));
                }
                3 => {
                    assert_eq!(b.get(&k), avl.get(&k));
                }
                _ => {}
            }
            assert_eq!(b.len(), avl.len());
        }
        assert!(avl.iter().into_iter().eq(b.into_iter()));
    }
}

#[test]
fn test_map_get_mut() {
    let mut tree = AvlTreeMap::new();
    tree.insert(1, 10);
    tree.insert(2, 20);
    *tree.get_mut(&1).unwrap() = 11;
    assert!(tree.get_mut(&3).is_none());
    assert_eq!(tree.get(&1), Some(&11));
    assert_eq!(tree.get(&2), Some(&20));
    assert_eq!(tree.get(&3), None);
}

#[test]
fn test_map_clear() {
    let mut tree = AvlTreeMap::new();
    tree.insert(1, 1);
    assert!(!tree.is_empty());
    tree.clear();
    assert!(tree.is_empty());
    assert!(!tree.contains_key(&1));
}
