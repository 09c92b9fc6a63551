//! A singly linked list of owned nodes.
//!
//! Every node owns the next one, so the whole list is a chain of boxes
//! starting at `head`.  Positional operations walk the chain from the front.

use vstd::prelude::*;

verus! {

/// One link of the chain: a value and the rest of the list.
pub struct Node {
    value: i32,
    next: Option<Box<Node>>,
}

/// The values of the chain starting at this node, front first.
pub closed spec fn node_seq(n: Node) -> Seq<i32>
    decreases n,
{
    seq![n.value] + seq_from(n.next)
}

/// The values of an optional chain, front first.
pub closed spec fn seq_from(node: Option<Box<Node>>) -> Seq<i32>
    decreases node,
{
    match node {
        None => Seq::empty(),
        Some(b) => node_seq(*b),
    }
}

impl View for Node {
    type V = Seq<i32>;

    closed spec fn view(&self) -> Seq<i32> {
        node_seq(*self)
    }
}

impl Node {
    /// A detached node holding `value` and nothing after it.
    pub fn new(value: i32) -> (n: Node)
        ensures
            n@ == seq![value],
    {
        let n = Node { value, next: None };
        proof {
            assert(n@ =~= seq![value]);
        }
        n
    }
}

/// The suffix of the chain that starts `n` nodes past `node`; `n` must not
/// point past the end of the chain.
pub fn node_nth_next(node: &Option<Box<Node>>, n: usize) -> (r: &Option<Box<Node>>)
    requires
        n <= seq_from(*node).len(),
    ensures
        seq_from(*r) == seq_from(*node).skip(n as int),
    decreases n,
{
    if n == 0 {
        proof {
            assert(seq_from(*node).skip(0) =~= seq_from(*node));
        }
        node
    } else {
        match node {
            Some(b) => {
                proof {
                    assert(seq_from(b.next).skip(n - 1) =~= seq_from(*node).skip(n as int));
                }
                node_nth_next(&b.next, n - 1)
            },
            None => unreached(),
        }
    }
}

/// The mutable counterpart of `node_nth_next`: whatever the caller does with
/// the returned suffix, the first `n` values stay as they were.
pub fn node_nth_next_mut(node: &mut Option<Box<Node>>, n: usize) -> (r: &mut Option<Box<Node>>)
    requires
        n <= seq_from(*old(node)).len(),
    ensures
        seq_from(*r) == seq_from(*old(node)).skip(n as int),
        seq_from(*final(node)) == seq_from(*old(node)).take(n as int) + seq_from(*final(r)),
    decreases n,
{
    if n == 0 {
        proof {
            let whole = seq_from(*node);
            assert(whole.skip(0) =~= whole);
            assert forall|s: Seq<i32>| #[trigger] (whole.take(0) + s) == s by {
                assert(whole.take(0) + s =~= s);
            }
        }
        node
    } else {
        match node {
            Some(b) => {
                proof {
                    let v0 = b.value;
                    let tail = seq_from(b.next);
                    let whole = seq![v0] + tail;
                    assert(tail.skip(n - 1) =~= whole.skip(n as int));
                    assert forall|s: Seq<i32>| seq![v0] + (tail.take(n - 1) + s) == #[trigger] (
                    whole.take(n as int) + s) by {
                        assert(seq![v0] + (tail.take(n - 1) + s) =~= whole.take(n as int) + s);
                    }
                }
                node_nth_next_mut(&mut b.next, n - 1)
            },
            None => unreached(),
        }
    }
}

/// Appends `value` at the end of the chain.
fn push_back_node(node: &mut Option<Box<Node>>, value: i32)
    ensures
        seq_from(*final(node)) == seq_from(*old(node)).push(value),
    decreases *old(node),
{
    match node {
        None => {
            *node = Some(Box::new(Node { value, next: None }));
            proof {
                assert(seq_from(*node) =~= seq_from(*old(node)).push(value));
            }
        },
        Some(b) => {
            proof {
                let v0 = b.value;
                let tail = seq_from(b.next);
                assert(seq![v0] + tail.push(value) =~= (seq![v0] + tail).push(value));
            }
            push_back_node(&mut b.next, value);
        },
    }
}

/// Inserts `value` so that it sits `index` nodes past `node`.
fn insert_node(node: &mut Option<Box<Node>>, index: usize, value: i32)
    requires
        index <= seq_from(*old(node)).len(),
    ensures
        seq_from(*final(node)) == seq_from(*old(node)).insert(index as int, value),
    decreases index,
{
    if index == 0 {
        let rest = node.take();
        *node = Some(Box::new(Node { value, next: rest }));
        proof {
            assert(seq_from(*node) =~= seq_from(*old(node)).insert(0, value));
        }
    } else {
        match node {
            Some(b) => {
                proof {
                    let v0 = b.value;
                    let tail = seq_from(b.next);
                    assert(seq![v0] + tail.insert(index - 1, value) =~= (seq![v0] + tail).insert(
                        index as int,
                        value,
                    ));
                }
                insert_node(&mut b.next, index - 1, value);
            },
            None => {
                proof {
                    assert(false);
                }
            },
        }
    }
}

/// Unlinks the node `index` places past `node`.
fn remove_node(node: &mut Option<Box<Node>>, index: usize)
    requires
        index < seq_from(*old(node)).len(),
    ensures
        seq_from(*final(node)) == seq_from(*old(node)).remove(index as int),
    decreases index,
{
    if index == 0 {
        match node.take() {
            Some(b) => {
                let unboxed = *b;
                let Node { value: _gone, next } = unboxed;
                *node = next;
                proof {
                    assert(seq_from(*node) =~= seq_from(*old(node)).remove(0));
                }
            },
            None => {
                proof {
                    assert(false);
                }
            },
        }
    } else {
        match node {
            Some(b) => {
                proof {
                    let v0 = b.value;
                    let tail = seq_from(b.next);
                    assert(seq![v0] + tail.remove(index - 1) =~= (seq![v0] + tail).remove(
                        index as int,
                    ));
                }
                remove_node(&mut b.next, index - 1);
            },
            None => {
                proof {
                    assert(false);
                }
            },
        }
    }
}

/// Reads the value `index` nodes past `node`, if the chain is that long.
fn get_node(node: &Option<Box<Node>>, index: usize) -> (r: Option<&i32>)
    ensures
        index < seq_from(*node).len() ==> r is Some && *r.unwrap() == seq_from(*node)[index as int],
        index >= seq_from(*node).len() ==> r is None,
    decreases index,
{
    match node {
        None => None,
        Some(b) => {
            if index == 0 {
                Some(&b.value)
            } else {
                get_node(&b.next, index - 1)
            }
        },
    }
}

/// Overwrites the value `index` nodes past `node`; reports whether the chain
/// was that long.
fn set_node(node: &mut Option<Box<Node>>, index: usize, value: i32) -> (r: bool)
    ensures
        r == (index < seq_from(*old(node)).len()),
        r ==> seq_from(*final(node)) == seq_from(*old(node)).update(index as int, value),
        !r ==> seq_from(*final(node)) == seq_from(*old(node)),
    decreases index,
{
    match node {
        None => false,
        Some(b) => {
            if index == 0 {
                b.value = value;
                proof {
                    assert(seq_from(*node) =~= seq_from(*old(node)).update(0, value));
                }
                true
            } else {
                proof {
                    let v0 = b.value;
                    let tail = seq_from(b.next);
                    if index - 1 < tail.len() {
                        assert(seq![v0] + tail.update(index - 1, value) =~= (seq![v0]
                            + tail).update(index as int, value));
                    }
                }
                set_node(&mut b.next, index - 1, value)
            }
        },
    }
}

/// Collects the chain's values in order.
fn collect_node(node: &Option<Box<Node>>, out: &mut Vec<i32>)
    ensures
        final(out)@ == old(out)@ + seq_from(*node),
    decreases *node,
{
    match node {
        None => {
            proof {
                assert(out@ =~= out@ + seq_from(*node));
            }
        },
        Some(b) => {
            let ghost a0 = out@;
            out.push(b.value);
            collect_node(&b.next, out);
            proof {
                assert(out@ =~= a0 + seq_from(*node));
            }
        },
    }
}

/// A singly linked list of `i32` values with positional access from the
/// front.
pub struct SinglyLinkedList {
    head: Option<Box<Node>>,
}

impl View for SinglyLinkedList {
    type V = Seq<i32>;

    closed spec fn view(&self) -> Seq<i32> {
        seq_from(self.head)
    }
}

impl SinglyLinkedList {
    /// Creates an empty list.
    pub fn new() -> (l: Self)
        ensures
            l@ == Seq::<i32>::empty(),
    {
        SinglyLinkedList { head: None }
    }

    /// Puts `value` in front of the first element.
    pub fn push_front(&mut self, value: i32)
        ensures
            final(self)@ == old(self)@.insert(0, value),
    {
        let rest = self.head.take();
        self.head = Some(Box::new(Node { value, next: rest }));
        proof {
            assert(self@ =~= old(self)@.insert(0, value));
        }
    }

    /// Appends `value` after the last element, walking the whole chain.
    pub fn push_back(&mut self, value: i32)
        ensures
            final(self)@ == old(self)@.push(value),
    {
        push_back_node(&mut self.head, value);
    }

    /// Inserts `value` at position `index`; the caller must keep `index`
    /// within `0 ..= len`, as anything past the end is a fatal misuse.
    pub fn insert(&mut self, index: usize, value: i32)
        requires
            index <= old(self)@.len(),
        ensures
            final(self)@ == old(self)@.insert(index as int, value),
    {
        insert_node(&mut self.head, index, value);
    }

    /// Removes the element at position `index`; the caller must keep `index`
    /// within bounds, as anything past the end is a fatal misuse.
    pub fn remove(&mut self, index: usize)
        requires
            index < old(self)@.len(),
        ensures
            final(self)@ == old(self)@.remove(index as int),
    {
        remove_node(&mut self.head, index);
    }

    /// The element at `index`, or `None` exactly when `index` is past the end.
    pub fn get(&self, index: usize) -> (r: Option<&i32>)
        ensures
            index < self@.len() ==> r is Some && *r.unwrap() == self@[index as int],
            index >= self@.len() ==> r is None,
    {
        get_node(&self.head, index)
    }

    /// Overwrites the element at `index`; reports whether `index` was in
    /// bounds, leaving the list unchanged when it was not.
    pub fn set(&mut self, index: usize, value: i32) -> (r: bool)
        ensures
            r == (index < old(self)@.len()),
            r ==> final(self)@ == old(self)@.update(index as int, value),
            !r ==> final(self)@ == old(self)@,
    {
        set_node(&mut self.head, index, value)
    }

    /// The values of the list, front first.
    pub fn iter(&self) -> (r: Vec<i32>)
        ensures
            r@ == self@,
    {
        let mut out: Vec<i32> = Vec::new();
        collect_node(&self.head, &mut out);
        proof {
            assert(out@ =~= self@);
        }
        out
    }
}

} // verus!
