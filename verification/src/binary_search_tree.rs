//! An unbalanced binary search tree holding a set of `i32` values.
//!
//! For every node, the left subtree holds only smaller values and the right
//! subtree only larger ones; nothing rebalances the tree, so its depth
//! depends on the insertion order.

use vstd::prelude::*;

verus! {

struct Node {
    value: i32,
    left: Option<Box<Node>>,
    right: Option<Box<Node>>,
}

/// The set of values held by a subtree.
spec fn set_of(node: Option<Box<Node>>) -> Set<i32>
    decreases node,
{
    match node {
        None => Set::empty(),
        Some(b) => set_of(b.left).union(set_of(b.right)).insert(b.value),
    }
}

/// The values of a subtree in symmetric (in-order) order.
spec fn inorder_of(node: Option<Box<Node>>) -> Seq<i32>
    decreases node,
{
    match node {
        None => Seq::empty(),
        Some(b) => inorder_of(b.left).push(b.value) + inorder_of(b.right),
    }
}

/// The search-tree ordering: smaller values left, larger values right.
spec fn bst(node: Option<Box<Node>>) -> bool
    decreases node,
{
    match node {
        None => true,
        Some(b) => {
            &&& bst(b.left)
            &&& bst(b.right)
            &&& forall|x: i32| set_of(b.left).contains(x) ==> x < b.value
            &&& forall|x: i32| set_of(b.right).contains(x) ==> x > b.value
        },
    }
}

/// Adds `value` at the search position; reports whether it was new.
fn insert_node(node: &mut Option<Box<Node>>, value: i32) -> (r: bool)
    requires
        bst(*old(node)),
    ensures
        bst(*final(node)),
        r == !set_of(*old(node)).contains(value),
        set_of(*final(node)) == set_of(*old(node)).insert(value),
    decreases *old(node),
{
    match node {
        None => {
            *node = Some(Box::new(Node { value, left: None, right: None }));
            proof {
                assert(set_of(*node) =~= set_of(*old(node)).insert(value));
            }
            true
        },
        Some(b) => {
            let ghost l0 = set_of(b.left);
            let ghost r0 = set_of(b.right);
            let ghost v0 = b.value;
            if value == b.value {
                proof {
                    assert(set_of(*node).contains(value));
                }
                false
            } else if value < b.value {
                let r = insert_node(&mut b.left, value);
                proof {
                    assert(set_of(b.left).union(r0).insert(v0) =~= l0.union(r0).insert(v0).insert(
                        value,
                    ));
                    assert(l0.union(r0).insert(v0).contains(value) == l0.contains(value));
                }
                r
            } else {
                let r = insert_node(&mut b.right, value);
                proof {
                    assert(l0.union(set_of(b.right)).insert(v0) =~= l0.union(r0).insert(v0).insert(
                        value,
                    ));
                    assert(l0.union(r0).insert(v0).contains(value) == r0.contains(value));
                }
                r
            }
        },
    }
}

/// Whether `value` sits somewhere in the subtree.
fn contains_node(node: &Option<Box<Node>>, value: i32) -> (r: bool)
    requires
        bst(*node),
    ensures
        r == set_of(*node).contains(value),
    decreases *node,
{
    match node {
        None => {
            proof {
                broadcast use vstd::set::group_set_axioms;

                assert(set_of(*node) == Set::<i32>::empty());
            }
            false
        },
        Some(b) => {
            if value == b.value {
                true
            } else if value < b.value {
                let r = contains_node(&b.left, value);
                proof {
                    assert(!set_of(b.right).contains(value));
                    assert(set_of(*node).contains(value) == set_of(b.left).contains(value));
                }
                r
            } else {
                let r = contains_node(&b.right, value);
                proof {
                    assert(!set_of(b.left).contains(value));
                    assert(set_of(*node).contains(value) == set_of(b.right).contains(value));
                }
                r
            }
        },
    }
}

/// Detaches the smallest value of a non-empty subtree and returns it.
fn remove_min_node(node: &mut Option<Box<Node>>) -> (m: i32)
    requires
        *old(node) is Some,
        bst(*old(node)),
    ensures
        bst(*final(node)),
        set_of(*old(node)).contains(m),
        forall|x: i32| set_of(*old(node)).contains(x) ==> m <= x,
        set_of(*final(node)) == set_of(*old(node)).remove(m),
    decreases *old(node),
{
    let go_left = node.as_ref().unwrap().left.is_some();
    if go_left {
        match node {
            None => unreached(),
            Some(b) => {
                let ghost r0 = set_of(b.right);
                let ghost v0 = b.value;
                let ghost l0 = set_of(b.left);
                let m = remove_min_node(&mut b.left);
                proof {
                    assert(set_of(b.left).union(r0).insert(v0) =~= l0.union(r0).insert(v0).remove(
                        m,
                    ));
                }
                m
            },
        }
    } else {
        let cur = node.take().unwrap();
        let unboxed = *cur;
        let Node { value, left: _l, right } = unboxed;
        *node = right;
        proof {
            broadcast use vstd::set::group_set_axioms;

            assert(set_of(cur.left) =~= Set::<i32>::empty());
            assert(forall|x: i32| set_of(cur.right).contains(x) ==> x > cur.value);
            assert(set_of(*node) =~= set_of(*old(node)).remove(value));
        }
        value
    }
}

/// Unlinks `value` from the subtree; reports whether it was there.
fn remove_node(node: &mut Option<Box<Node>>, value: i32) -> (r: bool)
    requires
        bst(*old(node)),
    ensures
        bst(*final(node)),
        r == set_of(*old(node)).contains(value),
        set_of(*final(node)) == set_of(*old(node)).remove(value),
    decreases *old(node),
{
    match node {
        None => {
            proof {
                assert(set_of(*node) =~= set_of(*node).remove(value));
            }
            false
        },
        Some(b) => {
            let ghost l0 = set_of(b.left);
            let ghost r0 = set_of(b.right);
            let ghost v0 = b.value;
            if value < b.value {
                let r = remove_node(&mut b.left, value);
                proof {
                    assert(set_of(b.left).union(r0).insert(v0) =~= l0.union(r0).insert(v0).remove(
                        value,
                    ));
                    assert(l0.union(r0).insert(v0).contains(value) == l0.contains(value));
                }
                r
            } else if value > b.value {
                let r = remove_node(&mut b.right, value);
                proof {
                    assert(l0.union(set_of(b.right)).insert(v0) =~= l0.union(r0).insert(v0).remove(
                        value,
                    ));
                    assert(l0.union(r0).insert(v0).contains(value) == r0.contains(value));
                }
                r
            } else {
                if b.left.is_none() {
                    let cur = node.take().unwrap();
                    let unboxed = *cur;
                    let Node { value: _v, left: _l, right } = unboxed;
                    *node = right;
                    proof {
                        assert(set_of(*node) =~= set_of(*old(node)).remove(value));
                    }
                    true
                } else if b.right.is_none() {
                    let cur = node.take().unwrap();
                    let unboxed = *cur;
                    let Node { value: _v, left, right: _r } = unboxed;
                    *node = left;
                    proof {
                        assert(set_of(*node) =~= set_of(*old(node)).remove(value));
                    }
                    true
                } else {
                    let m = remove_min_node(&mut b.right);
                    b.value = m;
                    proof {
                        assert(l0.union(set_of(b.right)).insert(m) =~= l0.union(r0).insert(
                            v0,
                        ).remove(v0));
                        assert(forall|x: i32|
                            set_of(b.right).contains(x) ==> r0.contains(x) && x != m);
                    }
                    true
                }
            }
        },
    }
}

/// Collects a subtree's values in symmetric order.
fn collect_node(node: &Option<Box<Node>>, out: &mut Vec<i32>)
    ensures
        final(out)@ == old(out)@ + inorder_of(*node),
    decreases *node,
{
    match node {
        None => {
            proof {
                assert(out@ =~= out@ + inorder_of(*node));
            }
        },
        Some(b) => {
            let ghost a0 = out@;
            collect_node(&b.left, out);
            out.push(b.value);
            collect_node(&b.right, out);
            proof {
                assert(out@ =~= a0 + inorder_of(*node));
            }
        },
    }
}

proof fn lemma_inorder_members(node: Option<Box<Node>>)
    ensures
        forall|x: i32| #[trigger] inorder_of(node).contains(x) <==> set_of(node).contains(x),
        inorder_of(node).len() == 0 <==> node is None,
    decreases node,
{
    match node {
        None => {},
        Some(b) => {
            lemma_inorder_members(b.left);
            lemma_inorder_members(b.right);
            let l = inorder_of(b.left);
            let r = inorder_of(b.right);
            let whole = l.push(b.value) + r;
            assert forall|x: i32| #[trigger] whole.contains(x) implies set_of(node).contains(
                x,
            ) by {
                let i = choose|i: int| 0 <= i < whole.len() && whole[i] == x;
                if i < l.len() {
                    assert(l.contains(x));
                } else if i > l.len() {
                    assert(r[i - l.len() - 1] == x);
                    assert(r.contains(x));
                }
            }
            assert forall|x: i32| set_of(node).contains(x) implies #[trigger] whole.contains(
                x,
            ) by {
                if l.contains(x) {
                    let i = choose|i: int| 0 <= i < l.len() && l[i] == x;
                    assert(whole[i] == x);
                } else if r.contains(x) {
                    let i = choose|i: int| 0 <= i < r.len() && r[i] == x;
                    assert(whole[i + l.len() + 1] == x);
                } else {
                    assert(whole[l.len() as int] == x);
                }
            }
        },
    }
}

/// In a search tree the in-order walk is strictly increasing.
proof fn lemma_inorder_sorted(node: Option<Box<Node>>)
    requires
        bst(node),
    ensures
        forall|i: int, j: int|
            0 <= i < j < inorder_of(node).len() ==> inorder_of(node)[i] < inorder_of(node)[j],
    decreases node,
{
    match node {
        None => {},
        Some(b) => {
            lemma_inorder_sorted(b.left);
            lemma_inorder_sorted(b.right);
            lemma_inorder_members(b.left);
            lemma_inorder_members(b.right);
            let l = inorder_of(b.left);
            let r = inorder_of(b.right);
            let whole = l.push(b.value) + r;
            assert forall|i: int, j: int|
                0 <= i < j < whole.len() implies whole[i] < whole[j] by {
                if i < l.len() {
                    assert(l.contains(l[i]));
                }
                if j > l.len() {
                    assert(r.contains(r[j - l.len() - 1]));
                }
            }
        },
    }
}

/// An unbalanced binary search tree holding a set of `i32` values.
pub struct BinarySearchTree {
    root: Option<Box<Node>>,
}

impl View for BinarySearchTree {
    type V = Set<i32>;

    closed spec fn view(&self) -> Set<i32> {
        set_of(self.root)
    }
}

impl BinarySearchTree {
    /// The search-tree ordering invariant.
    pub closed spec fn well_formed(self) -> bool {
        bst(self.root)
    }

    /// The values in ascending order.
    pub closed spec fn inorder(self) -> Seq<i32> {
        inorder_of(self.root)
    }

    /// Creates an empty tree.
    pub fn new() -> (t: Self)
        ensures
            t.well_formed(),
            t@ == Set::<i32>::empty(),
    {
        BinarySearchTree { root: None }
    }

    /// Removes every value.
    pub fn clear(&mut self)
        ensures
            final(self).well_formed(),
            final(self)@ == Set::<i32>::empty(),
    {
        self.root = None;
    }

    /// Adds `value`; reports whether it was new.
    pub fn insert(&mut self, value: i32) -> (r: bool)
        requires
            old(self).well_formed(),
        ensures
            final(self).well_formed(),
            r == !old(self)@.contains(value),
            final(self)@ == old(self)@.insert(value),
    {
        insert_node(&mut self.root, value)
    }

    /// Whether `value` is in the tree.
    pub fn contains(&self, value: &i32) -> (r: bool)
        requires
            self.well_formed(),
        ensures
            r == self@.contains(*value),
    {
        contains_node(&self.root, *value)
    }

    /// Removes `value`; reports whether it was there.
    pub fn remove(&mut self, value: &i32) -> (r: bool)
        requires
            old(self).well_formed(),
        ensures
            final(self).well_formed(),
            r == old(self)@.contains(*value),
            final(self)@ == old(self)@.remove(*value),
    {
        remove_node(&mut self.root, *value)
    }

    /// The values in ascending order.
    pub fn iter(&self) -> (r: Vec<i32>)
        requires
            self.well_formed(),
        ensures
            r@ == self.inorder(),
            r@.to_set() == self@,
            forall|i: int, j: int| 0 <= i < j < r@.len() ==> r@[i] < r@[j],
    {
        let mut out: Vec<i32> = Vec::new();
        collect_node(&self.root, &mut out);
        proof {
            assert(out@ =~= self.inorder());
            lemma_inorder_members(self.root);
            lemma_inorder_sorted(self.root);
            assert(out@.to_set() =~= self@);
        }
        out
    }

    /// Builds a tree holding exactly the values of `v`.
    pub fn from_vec(v: Vec<i32>) -> (t: Self)
        ensures
            t.well_formed(),
            t@ == v@.to_set(),
    {
        let mut t = BinarySearchTree::new();
        let n = v.len();
        let mut i: usize = 0;
        while i < n
            invariant
                t.well_formed(),
                n == v@.len(),
                0 <= i <= n,
                t@ == v@.take(i as int).to_set(),
            decreases n - i,
        {
            let x = v[i];
            t.insert(x);
            proof {
                broadcast use vstd::prelude::Seq::lemma_to_set_insert_commutes;

                assert(v@.take(i + 1) == v@.take(i as int).push(x));
                assert(v@.take(i as int).push(x) == v@.take(i as int) + seq![x]);
                assert(v@.take(i + 1).to_set() == v@.take(i as int).to_set().insert(x));
            }
            i = i + 1;
        }
        proof {
            assert(v@.take(n as int) == v@);
        }
        t
    }
}

} // verus!
