use ds::binary_search_tree::BinarySearchTree;
use rand::{rng, Rng};
use std::collections::BTreeSet;

#[test]
fn binary_search_tree_test_insert_and_contains() {
    let mut tree = BinarySearchTree::new();
    assert!(!tree.contains(&10));
    assert!(!tree.contains(&6));
    assert!(tree.insert(10));
    assert!(tree.contains(&10));
    assert!(tree.insert(6));
    assert!(tree.contains(&6));
    assert!(!tree.insert(6));
}

#[test]
fn test_iter() {
    let mut tree = BinarySearchTree::new();
    assert!(tree.iter().into_iter().eq([]));
    tree.insert(3);
    tree.insert(1);
    tree.insert(4);
    tree.insert(1);
    tree.insert(5);
    assert!(tree.iter().into_iter().eq([1, 3, 4, 5]));
}

#[test]
fn binary_search_tree_test_remove() {
    let mut tree = BinarySearchTree::from_vec(vec![3, 1, 4, 1, 5]);
    assert!(!tree.remove(&10));
    assert!(tree.contains(&3));
    assert!(tree.remove(&3));
    assert!(!tree.contains(&3));

    let mut tree = BinarySearchTree::from_vec(vec![9, 5, 1, 7, 3, 8]);
    tree.remove(&5);
    assert!(tree.iter().into_iter().eq([1, 3, 7, 8, 9]));

    let mut tree = BinarySearchTree::from_vec(vec![100, 50, 20, 10, 80, 90, 60, 95]);
    tree.remove(&10);
    assert!(tree.iter().into_iter().eq([20, 50, 60, 80, 90, 95, 100]));

    let mut tree = BinarySearchTree::from_vec(vec![100, 50, 20, 10, 80, 90, 60, 95]);
    tree.remove(&95);
    assert!(tree.iter().into_iter().eq([10, 20, 50, 60, 80, 90, 100]));

    let mut tree = BinarySearchTree::from_vec(vec![100, 50, 20, 10, 80, 90, 60, 95]);
    tree.remove(&80);
    assert!(tree.iter().into_iter().eq([10, 20, 50, 60, 90, 95, 100]));

    let mut tree = BinarySearchTree::from_vec(vec![100, 50, 20, 10, 80, 90, 60, 95]);
    tree.remove(&50);
    assert!(tree.iter().into_iter().eq([10, 20, 60, 80, 90, 95, 100]));
}

#[test]
fn binary_search_tree_test_random() {
    let mut rng = rng();

    for _ in 0..5 {
        let mut st = BTreeSet::new();
        let mut tree = BinarySearchTree::new();
        for _ in 0..1000 {
            // 0: insert
            // 1: remove
            // 2: contains
            let t = rng.random_range(0..3);
            let x = rng.random();
            match t {
                0 => {
                    assert_eq!(st.insert(x), tree.insert(x));
                }
                1 => {
                    assert_eq!(st.remove(&x), tree.remove(&x));
                }
                2 => {
                    assert_eq!(st.contains(&x), tree.contains(&x));
                }
                _ => {}
            }
            assert!(tree.iter().into_iter().eq(st.iter().copied()));
        }
    }
}

#[test]
fn test_bst_clear() {
    let mut tree = BinarySearchTree::from_vec(vec![2, 1, 3]);
    assert!(tree.contains(&2));
    tree.clear();
    assert!(!tree.contains(&2));
    assert!(tree.iter().into_iter().eq([]));
}
