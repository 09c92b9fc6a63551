use ds::avl_set::AVLTreeSet;
use rand::{rng, Rng};
use std::collections::BTreeSet;

#[test]
fn avl_tree_set_test_insert_and_contains() {
    let mut tree = AVLTreeSet::new();
    assert!(!tree.contains(&3));
    assert!(!tree.contains(&1));
    assert!(!tree.contains(&4));
    assert!(!tree.contains(&5));
    assert!(!tree.contains(&100));
    assert!(tree.insert(3));
    assert!(tree.insert(1));
    assert!(tree.insert(4));
    assert!(!tree.insert(1));
    assert!(tree.insert(5));
    assert!(tree.contains(&3));
    assert!(tree.contains(&1));
    assert!(tree.contains(&4));
    assert!(tree.contains(&5));
    assert!(!tree.contains(&100));
}

#[test]
fn avl_tree_set_test_remove() {
    let mut tree = AVLTreeSet::from_vec(vec![52, 73, 63, 27, 44, 94, 31, 82, 70, 37]);
    assert!(tree.iter().into_iter().eq([27, 31, 37, 44, 52, 63, 70, 73, 82, 94]));
    assert!(tree.remove(&44));
    assert!(tree.remove(&52));
    assert!(tree.remove(&63));
    assert!(!tree.remove(&100));
    assert!(tree.remove(&82));
    assert!(!tree.remove(&44));
    assert!(tree.iter().into_iter().eq([27, 31, 37, 70, 73, 94]));
}

#[test]
fn avl_tree_set_test_random() {
    let mut rng = rng();

    for _ in 0..5 {
        let mut avl = AVLTreeSet::new();
        let mut b = BTreeSet::new();
        for _ in 0..1000 {
            // 0: insert
            // 1: contains
            // 2: remove
            // 3: nth
            let t = rng.random_range(0..4);
            match t {
                0 => {
                    let x = rng.random_range(-100..=100);
                    assert_eq!(b.insert(x), avl.insert(x));
                }
                1 => {
                    let x = rng.random_range(-100..=100);
                    assert_eq!(b.contains(&x), avl.contains(&x));
                }
                2 => {
                    let x = rng.random_range(-100..=100);
                    assert_eq!(b.remove(&x), avl.remove(&x));
                }
                3 => {
                    let k = rng.random_range(0..1000);
                    assert_eq!(b.iter().nth(k), avl.get_nth(k));
                }
                _ => {}
            }
            assert_eq!(b.len(), avl.len());
            assert!(avl.iter().into_iter().eq(b.iter().copied()));
            assert!(avl.iter().into_iter().rev().eq(b.iter().rev().copied()));
        }
        assert!(avl.iter().into_iter().eq(b.into_iter()));
    }
}

#[test]
fn avl_test_insert_and_contains() {
    let mut tree = AVLTreeSet::new();
    assert!(!tree.contains(&3));
    assert!(!tree.contains(&1));
    assert!(!tree.contains(&4));
    assert!(!tree.contains(&5));
    assert!(!tree.contains(&100));
    assert!(tree.insert(3));
    assert!(tree.insert(1));
    assert!(tree.insert(4));
    assert!(!tree.insert(1));
    assert!(tree.insert(5));
    assert!(tree.contains(&3));
    assert!(tree.contains(&1));
    assert!(tree.contains(&4));
    assert!(tree.contains(&5));
    assert!(!tree.contains(&100));
}

#[test]
fn avl_test_remove() {
    let mut tree = AVLTreeSet::from_vec(vec![3, 1, 4, 1, 5]);
    assert!(!tree.remove(&10));
    assert!(tree.contains(&3));
    assert!(tree.remove(&3));
    assert!(!tree.contains(&3));
}

#[test]
fn avl_test_random() {
    let mut rng = rng();

    for _ in 0..5 {
        let mut avl = AVLTreeSet::new();
        let mut b = BTreeSet::new();
        for _ in 0..1000 {
            // 0: insert
            // 1: contains
            // 2: remove
            let t = rng.random_range(0..3);
            let x = rng.random_range(-100..=100);
            match t {
                0 => {
                    assert_eq!(b.insert(x), avl.insert(x));
                }
                1 => {
                    assert_eq!(b.contains(&x), avl.contains(&x));
                }
                2 => {
                    assert_eq!(b.remove(&x), avl.remove(&x));
                }
                _ => {}
            }
            assert_eq!(b.len(), avl.len());
            assert!(avl.iter().into_iter().eq(b.iter().copied()));
        }
    }
}

#[test]
fn test_get_kth() {
    let tree = AVLTreeSet::from_vec(vec![9, 7, 5, 3, 1]);
    assert_eq!(tree.get_kth(0), Some(&1));
    assert_eq!(tree.get_kth(2), Some(&5));
    assert_eq!(tree.get_kth(4), Some(&9));
    assert_eq!(tree.get_kth(5), None);
    assert_eq!(tree.get_kth_mut(1), Some(&3));
    assert_eq!(tree.get_kth_mut(9), None);
}

#[test]
fn test_avl_set_append() {
    let mut tree1 = AVLTreeSet::from_vec(vec![2, 4, 6]);
    let mut tree2 = AVLTreeSet::from_vec(vec![3, 4, 5]);
    tree1.append(&mut tree2);
    assert!(tree1.iter().into_iter().eq([2, 3, 4, 5, 6]));
    assert!(tree2.is_empty());
}
