use ds::avl_tree_vec::AvlTreeVec;

fn from_slice(values: &[i32]) -> AvlTreeVec<i32> {
    let mut tree = AvlTreeVec::new();
    for &v in values {
        tree.push_back(v);
    }
    tree
}

#[test]
fn lib_test_push_back() {
    let mut tree = AvlTreeVec::new();
    tree.push_back(3);
    tree.push_back(1);
    tree.push_back(4);
    tree.push_back(1);
    tree.push_back(5);
    assert_eq!(*tree.index(0), 3);
    assert_eq!(*tree.index(1), 1);
    assert_eq!(*tree.index(2), 4);
    assert_eq!(*tree.index(3), 1);
    assert_eq!(*tree.index(4), 5);
    assert!(tree.iter().into_iter().copied().eq([3, 1, 4, 1, 5]));
    assert_eq!(tree.len(), 5);
}

#[test]
fn lib_test_push_front() {
    let mut tree = AvlTreeVec::new();
    tree.push_front(3);
    tree.push_front(1);
    tree.push_front(4);
    tree.push_front(1);
    tree.push_front(5);
    assert_eq!(*tree.index(0), 5);
    assert_eq!(*tree.index(1), 1);
    assert_eq!(*tree.index(2), 4);
    assert_eq!(*tree.index(3), 1);
    assert_eq!(*tree.index(4), 3);
    assert!(tree.iter().into_iter().copied().eq([5, 1, 4, 1, 3]));
    assert_eq!(tree.len(), 5);
}

#[test]
fn test_pop_back() {
    let mut tree = from_slice(&[3, 1, 4, 1, 5]);
    assert_eq!(tree.back(), Some(&5));
    assert_eq!(tree.pop_back(), Some(5));
    assert_eq!(tree.back(), Some(&1));
    assert_eq!(tree.pop_back(), Some(1));
    assert_eq!(tree.back(), Some(&4));
    assert_eq!(tree.pop_back(), Some(4));
    assert_eq!(tree.back(), Some(&1));
    assert_eq!(tree.pop_back(), Some(1));
    assert_eq!(tree.back(), Some(&3));
    assert_eq!(tree.pop_back(), Some(3));
    assert_eq!(tree.back(), None);
    assert_eq!(tree.pop_back(), None);
    assert!(tree.is_empty());
}

#[test]
fn test_pop_front() {
    let mut tree = from_slice(&[3, 1, 4, 1, 5]);
    assert_eq!(tree.front(), Some(&3));
    assert_eq!(tree.pop_front(), Some(3));
    assert_eq!(tree.front(), Some(&1));
    assert_eq!(tree.pop_front(), Some(1));
    assert_eq!(tree.front(), Some(&4));
    assert_eq!(tree.pop_front(), Some(4));
    assert_eq!(tree.front(), Some(&1));
    assert_eq!(tree.pop_front(), Some(1));
    assert_eq!(tree.front(), Some(&5));
    assert_eq!(tree.pop_front(), Some(5));
    assert_eq!(tree.front(), None);
    assert_eq!(tree.pop_front(), None);
    assert!(tree.is_empty());
}

#[test]
fn test_get_mut() {
    let mut tree = from_slice(&[3, 1, 4, 1, 5]);
    tree.get_mut(0).map(|item| *item = 2);
    tree.get_mut(1).map(|item| *item = 7);
    tree.get_mut(2).map(|item| *item = 1);
    tree.get_mut(3).map(|item| *item = 8);
    tree.get_mut(4).map(|item| *item = 2);
    tree.get_mut(5).map(|item| *item = 8);
    assert!(tree.iter().into_iter().copied().eq([2, 7, 1, 8, 2]));

    *tree.get_mut(0).unwrap() = 9;
    *tree.get_mut(1).unwrap() = 9;
    *tree.get_mut(2).unwrap() = 8;
    *tree.get_mut(3).unwrap() = 2;
    *tree.get_mut(4).unwrap() = 4;
    assert!(tree.iter().into_iter().copied().eq([9, 9, 8, 2, 4]));
}

#[test]
fn test_front_back_mut() {
    let mut tree = from_slice(&[3, 1, 4]);
    *tree.front_mut().unwrap() = 30;
    *tree.back_mut().unwrap() = 40;
    assert!(tree.iter().into_iter().copied().eq([30, 1, 40]));
    let mut empty: AvlTreeVec<i32> = AvlTreeVec::new();
    assert!(empty.front_mut().is_none());
    assert!(empty.back_mut().is_none());
}

#[test]
fn test_insert_at_positions() {
    let mut tree = from_slice(&[3, 1, 4, 1, 5]);
    tree.insert(2, 10);
    assert!(tree.iter().into_iter().copied().eq([3, 1, 10, 4, 1, 5]));
    tree.insert(6, 30);
    assert!(tree.iter().into_iter().copied().eq([3, 1, 10, 4, 1, 5, 30]));
    tree.insert(0, 7);
    assert!(tree.iter().into_iter().copied().eq([7, 3, 1, 10, 4, 1, 5, 30]));
}

// The sequence from the worked example: [3,1,4,1,5]; removing position 0
// gives [1,4,1,5]; removing position 2 of that gives [1,4,5].
#[test]
fn test_remove_at_positions() {
    let mut tree = from_slice(&[3, 1, 4, 1, 5]);
    assert_eq!(tree.remove(0), Some(3));
    assert!(tree.iter().into_iter().copied().eq([1, 4, 1, 5]));
    assert_eq!(tree.remove(2), Some(1));
    assert!(tree.iter().into_iter().copied().eq([1, 4, 5]));
    assert_eq!(tree.remove(7), None);
    assert!(tree.iter().into_iter().copied().eq([1, 4, 5]));
}

// Boundary behaviour: insert at 0 on empty yields [v]; remove on empty is
// absent; insert at len() appends; get(len()) is absent.
#[test]
fn test_boundaries() {
    let mut tree: AvlTreeVec<i32> = AvlTreeVec::new();
    assert_eq!(tree.remove(0), None);
    tree.insert(0, 42);
    assert!(tree.iter().into_iter().copied().eq([42]));
    let len = tree.len();
    tree.insert(len, 7);
    assert!(tree.iter().into_iter().copied().eq([42, 7]));
    assert_eq!(tree.get(tree.len()), None);
    assert_eq!(tree.get(1), Some(&7));
    tree.clear();
    assert!(tree.is_empty());
    assert_eq!(tree.get(0), None);
}

// The worked example: push_back 3,1,4,1,5; pop_back returns 5; a write
// through position 0 turns the front into 9.
#[test]
fn test_example_scenario() {
    let mut tree = AvlTreeVec::new();
    tree.push_back(3);
    tree.push_back(1);
    tree.push_back(4);
    tree.push_back(1);
    tree.push_back(5);
    assert!(tree.iter().into_iter().copied().eq([3, 1, 4, 1, 5]));
    assert_eq!(tree.len(), 5);
    assert_eq!(tree.pop_back(), Some(5));
    assert!(tree.iter().into_iter().copied().eq([3, 1, 4, 1]));
    *tree.get_mut(0).unwrap() = 9;
    assert!(tree.iter().into_iter().copied().eq([9, 1, 4, 1]));
}

// Split/merge round trip: splitting at any position and appending the two
// parts back together restores the original sequence.
#[test]
fn test_split_merge_round_trip() {
    let values = [3, 1, 4, 1, 5, 9, 2, 6, 5, 3];
    for k in 0..=values.len() {
        let mut tree = from_slice(&values);
        let mut right = tree.split_off(k);
        assert!(tree.iter().into_iter().copied().eq(values[..k].iter().copied()));
        assert!(right.iter().into_iter().copied().eq(values[k..].iter().copied()));
        tree.append(&mut right);
        assert!(right.is_empty());
        assert!(tree.iter().into_iter().copied().eq(values.iter().copied()));
    }
}

#[test]
fn test_split_off_boundaries() {
    let mut tree = from_slice(&[1, 2, 3]);
    let rest = tree.split_off(0);
    assert!(tree.is_empty());
    assert!(rest.iter().into_iter().copied().eq([1, 2, 3]));

    let mut tree = from_slice(&[1, 2, 3]);
    let rest = tree.split_off(3);
    assert!(rest.is_empty());
    assert!(tree.iter().into_iter().copied().eq([1, 2, 3]));
}

#[test]
fn test_height_observer() {
    let tree: AvlTreeVec<i32> = AvlTreeVec::new();
    assert_eq!(tree.height(), 0);
    let tree = from_slice(&[1]);
    assert_eq!(tree.height(), 1);
    let tree = from_slice(&[1, 2, 3, 4, 5, 6, 7]);
    // 7 elements fit a perfectly balanced tree of height 3; the AVL bound
    // allows at most 4 here.
    assert!(tree.height() <= 4);
}

#[test]
fn test_index_mut() {
    let mut tree = from_slice(&[3, 1, 4]);
    *tree.index_mut(1) = 10;
    assert!(tree.iter().into_iter().copied().eq([3, 10, 4]));
    assert_eq!(*tree.index(1), 10);
}

#[test]
fn test_append_empty_sides() {
    let mut left: AvlTreeVec<i32> = AvlTreeVec::new();
    let mut right = from_slice(&[1, 2]);
    left.append(&mut right);
    assert!(left.iter().into_iter().copied().eq([1, 2]));
    assert!(right.is_empty());

    let mut other: AvlTreeVec<i32> = AvlTreeVec::new();
    left.append(&mut other);
    assert!(left.iter().into_iter().copied().eq([1, 2]));
}
