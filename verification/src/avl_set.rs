//! A second AVL-backed set of `i32` values, with order-statistics lookup.
//!
//! It shares its engine with [`AvlTreeSet`]: the elements sit in ascending
//! order in a height-balanced tree, and `get_kth` reads the k-th smallest
//! element straight off the cached subtree sizes.

use crate::avl_tree_set::AvlTreeSet;
use vstd::prelude::*;

verus! {

/// A set of `i32` values in a height-balanced tree, with k-th element lookup.
pub struct AVLTreeSet {
    items: AvlTreeSet,
}

impl View for AVLTreeSet {
    type V = Set<i32>;

    closed spec fn view(&self) -> Set<i32> {
        self.items@
    }
}

impl AVLTreeSet {
    /// The structural invariant of the backing tree.
    pub closed spec fn well_formed(self) -> bool {
        self.items.well_formed()
    }

    /// The elements in ascending order.
    pub closed spec fn inorder(self) -> Seq<i32> {
        self.items.inorder()
    }

    /// Creates an empty set.
    pub fn new() -> (s: Self)
        ensures
            s.well_formed(),
            s@ == Set::<i32>::empty(),
    {
        AVLTreeSet { items: AvlTreeSet::new() }
    }

    /// Removes every element.
    pub fn clear(&mut self)
        ensures
            final(self).well_formed(),
            final(self)@ == Set::<i32>::empty(),
    {
        self.items.clear();
    }

    /// How many elements the set holds.
    pub fn len(&self) -> (n: usize)
        requires
            self.well_formed(),
        ensures
            n == self.inorder().len(),
            n == self@.len(),
    {
        self.items.len()
    }

    /// Whether the set holds no elements.
    pub fn is_empty(&self) -> (r: bool)
        requires
            self.well_formed(),
        ensures
            r == (self@.len() == 0),
    {
        self.items.is_empty()
    }

    /// Adds `value`; reports whether it was new.
    pub fn insert(&mut self, value: i32) -> (r: bool)
        requires
            old(self).well_formed(),
            old(self).inorder().len() < usize::MAX,
        ensures
            final(self).well_formed(),
            r == !old(self)@.contains(value),
            final(self)@ == old(self)@.insert(value),
    {
        self.items.insert(value)
    }

    /// Whether `value` is in the set.
    pub fn contains(&self, value: &i32) -> (r: bool)
        requires
            self.well_formed(),
        ensures
            r == self@.contains(*value),
    {
        self.items.contains(value)
    }

    /// Removes `value`; reports whether it was there.
    pub fn remove(&mut self, value: &i32) -> (r: bool)
        requires
            old(self).well_formed(),
        ensures
            final(self).well_formed(),
            r == old(self)@.contains(*value),
            final(self)@ == old(self)@.remove(*value),
    {
        self.items.remove(value)
    }

    /// The `n`-th smallest element, or `None` exactly when fewer than
    /// `n + 1` elements are present.
    pub fn get_nth(&self, n: usize) -> (r: Option<&i32>)
        requires
            self.well_formed(),
        ensures
            n < self.inorder().len() ==> r is Some && *r.unwrap() == self.inorder()[n as int],
            n >= self.inorder().len() ==> r is None,
    {
        self.items.get_nth(n)
    }

    /// The `index`-th smallest element, counted from zero.
    pub fn get_kth(&self, index: usize) -> (r: Option<&i32>)
        requires
            self.well_formed(),
        ensures
            index < self.inorder().len() ==> r is Some && *r.unwrap() == self.inorder()[index as int],
            index >= self.inorder().len() ==> r is None,
    {
        self.items.get_nth(index)
    }

    /// The `index`-th smallest element, counted from zero; the set itself is
    /// immutable, so the reference is shared.
    pub fn get_kth_mut(&self, index: usize) -> (r: Option<&i32>)
        requires
            self.well_formed(),
        ensures
            index < self.inorder().len() ==> r is Some && *r.unwrap() == self.inorder()[index as int],
            index >= self.inorder().len() ==> r is None,
    {
        self.items.get_nth(index)
    }

    /// Moves every element of `other` into `self`, leaving `other` empty.
    pub fn append(&mut self, other: &mut AVLTreeSet)
        requires
            old(self).well_formed(),
            old(other).well_formed(),
            old(self).inorder().len() + old(other).inorder().len() <= usize::MAX,
        ensures
            final(self).well_formed(),
            final(other).well_formed(),
            final(self)@ == old(self)@.union(old(other)@),
            final(other)@ == Set::<i32>::empty(),
    {
        self.items.append(&mut other.items);
    }

    /// The elements in ascending order.
    pub fn iter(&self) -> (r: Vec<i32>)
        requires
            self.well_formed(),
        ensures
            r@ == self.inorder(),
            r@.to_set() == self@,
            forall|i: int, j: int| 0 <= i < j < r@.len() ==> r@[i] < r@[j],
    {
        self.items.iter()
    }

    /// Builds a set holding exactly the values of `v`.
    pub fn from_vec(v: Vec<i32>) -> (t: Self)
        ensures
            t.well_formed(),
            t@ == v@.to_set(),
    {
        AVLTreeSet { items: AvlTreeSet::from_vec(v) }
    }
}

} // verus!
