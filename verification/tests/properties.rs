//! End-to-end checks of the sequence container against a plain `Vec`
//! reference model, including the AVL height bound.

use ds::avl_tree_vec::AvlTreeVec;
use rand::{rng, Rng};

fn assert_height_bound(tree: &AvlTreeVec<i32>) {
    let n = tree.len() as f64;
    let bound = 1.45 * (n + 2.0).log2();
    assert!((tree.height() as f64) <= bound);
}

fn assert_same(tree: &AvlTreeVec<i32>, reference: &Vec<i32>) {
    assert_eq!(tree.len(), reference.len());
    assert!(tree.iter().into_iter().copied().eq(reference.iter().copied()));
}

// Build 1..=1000 by inserting at random valid positions; after every
// operation the tree matches a Vec doing the same inserts and its height
// stays within the AVL bound.
#[test]
fn test_random_inserts_match_reference() {
    let mut rng = rng();
    let mut tree = AvlTreeVec::new();
    let mut reference: Vec<i32> = Vec::new();
    for v in 1..=1000 {
        let at = rng.random_range(0..=reference.len());
        tree.insert(at, v);
        reference.insert(at, v);
        assert_height_bound(&tree);
        assert_same(&tree, &reference);
    }
}

// A mixed operation log: the tree and a Vec reference stay equal, and the
// height bound holds after every step.
#[test]
fn test_random_mixed_ops_match_reference() {
    let mut rng = rng();
    for _ in 0..3 {
        let mut tree = AvlTreeVec::new();
        let mut reference: Vec<i32> = Vec::new();
        for step in 0..600 {
            // 0: insert at random position
            // 1: remove at random position
            // 2: push_front / push_back
            // 3: pop_front / pop_back
            let t = rng.random_range(0..4);
            match t {
                0 => {
                    let at = rng.random_range(0..=reference.len());
                    tree.insert(at, step);
                    reference.insert(at, step);
                }
                1 => {
                    if !reference.is_empty() {
                        let at = rng.random_range(0..reference.len());
                        assert_eq!(tree.remove(at), Some(reference.remove(at)));
                    } else {
                        assert_eq!(tree.remove(0), None);
                    }
                }
                2 => {
                    if step % 2 == 0 {
                        tree.push_front(step);
                        reference.insert(0, step);
                    } else {
                        tree.push_back(step);
                        reference.push(step);
                    }
                }
                _ => {
                    if step % 2 == 0 {
                        let expected = if reference.is_empty() {
                            None
                        } else {
                            Some(reference.remove(0))
                        };
                        assert_eq!(tree.pop_front(), expected);
                    } else {
                        assert_eq!(tree.pop_back(), reference.pop());
                    }
                }
            }
            assert_height_bound(&tree);
            assert_same(&tree, &reference);
        }
    }
}

// Splitting at a random position and merging back restores the sequence.
#[test]
fn test_random_split_merge_round_trip() {
    let mut rng = rng();
    let mut tree = AvlTreeVec::new();
    let mut reference: Vec<i32> = Vec::new();
    for v in 0..300 {
        let at = rng.random_range(0..=reference.len());
        tree.insert(at, v);
        reference.insert(at, v);
        let k = rng.random_range(0..=reference.len());
        let mut right = tree.split_off(k);
        tree.append(&mut right);
        assert!(right.is_empty());
        assert_height_bound(&tree);
        assert_same(&tree, &reference);
    }
}
