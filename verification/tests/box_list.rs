use ds::box_list::{node_nth_next, Node, SinglyLinkedList};

fn from_values(values: &[i32]) -> SinglyLinkedList {
    let mut list = SinglyLinkedList::new();
    for &v in values {
        list.push_back(v);
    }
    list
}

#[test]
fn box_list_test_push_back() {
    let mut list = SinglyLinkedList::new();
    assert!(list.iter().into_iter().eq([]));
    list.push_back(4);
    assert!(list.iter().into_iter().eq([4]));
    list.push_back(3);
    list.push_back(1);
    list.push_back(5);
    assert!(list.iter().into_iter().eq([4, 3, 1, 5]));
}

#[test]
fn box_list_test_push_front() {
    let mut list = SinglyLinkedList::new();
    list.push_front(1);
    assert!(list.iter().into_iter().eq([1]));
    list.push_front(10);
    assert!(list.iter().into_iter().eq([10, 1]));
    list.push_front(2);
    assert!(list.iter().into_iter().eq([2, 10, 1]));
}

#[test]
fn test_from() {
    let list = from_values(&[3, 1, 4, 1, 5]);
    assert!(list.iter().into_iter().eq([3, 1, 4, 1, 5]));
    let mut list = SinglyLinkedList::new();
    for v in 0..10 {
        list.push_back(v);
    }
    assert!(list.iter().into_iter().eq([0, 1, 2, 3, 4, 5, 6, 7, 8, 9]));
}

#[test]
fn test_index() {
    let mut list = from_values(&[3, 1, 4, 1, 5]);
    assert_eq!(*list.get(0).unwrap(), 3);
    assert_eq!(*list.get(1).unwrap(), 1);
    assert_eq!(*list.get(2).unwrap(), 4);
    assert_eq!(*list.get(3).unwrap(), 1);
    assert_eq!(*list.get(4).unwrap(), 5);

    assert!(list.set(2, 9));
    assert!(list.set(4, 30));
    assert_eq!(*list.get(2).unwrap(), 9);
    assert_eq!(*list.get(4).unwrap(), 30);
    assert!(list.iter().into_iter().eq([3, 1, 9, 1, 30]));
}

#[test]
fn test_get_out_of_bounds() {
    let mut list = from_values(&[3, 1, 4, 1, 5]);
    assert!(list.get(10).is_none());
    assert!(!list.set(6, 30));
    assert!(list.iter().into_iter().eq([3, 1, 4, 1, 5]));
}

#[test]
fn test_insert() {
    let mut list = from_values(&[3, 1, 4, 1, 5]);
    list.insert(2, 10);
    assert!(list.iter().into_iter().eq([3, 1, 10, 4, 1, 5]));
    list.insert(6, 30);
    assert!(list.iter().into_iter().eq([3, 1, 10, 4, 1, 5, 30]));
}

#[test]
fn box_list_test_remove() {
    let mut list = from_values(&[3, 1, 4, 1, 5]);
    list.remove(0);
    assert!(list.iter().into_iter().eq([1, 4, 1, 5]));
    list.remove(2);
    assert!(list.iter().into_iter().eq([1, 4, 5]));
}

#[test]
fn test_node_new() {
    let _n = Node::new(7);
    let mut list = SinglyLinkedList::new();
    list.push_front(7);
    assert_eq!(*list.get(0).unwrap(), 7);
}

#[test]
fn test_node_nth_next() {
    // A detached one-node chain: walking 0 steps sees the node, walking 1
    // step reaches the empty tail.
    let chain: Option<Box<Node>> = Some(Box::new(Node::new(7)));
    let at0 = node_nth_next(&chain, 0);
    assert!(at0.is_some());
    let at1 = node_nth_next(&chain, 1);
    assert!(at1.is_none());
    let empty: Option<Box<Node>> = None;
    assert!(node_nth_next(&empty, 0).is_none());
}

#[test]
fn test_push_back() {
    let mut list = SinglyLinkedList::new();
    assert!(list.iter().into_iter().eq([]));
    list.push_back(4);
    assert!(list.iter().into_iter().eq([4]));
    list.push_back(3);
    list.push_back(1);
    list.push_back(5);
    assert!(list.iter().into_iter().eq([4, 3, 1, 5]));
}

#[test]
fn test_push_front() {
    let mut list = SinglyLinkedList::new();
    list.push_front(1);
    assert!(list.iter().into_iter().eq([1]));
    list.push_front(10);
    assert!(list.iter().into_iter().eq([10, 1]));
    list.push_front(2);
    assert!(list.iter().into_iter().eq([2, 10, 1]));
}
