//! A set of `i32` values kept in a height-balanced tree.
//!
//! The elements live in an [`AvlTreeVec`] in strictly increasing order, so
//! the balanced tree orders them by comparison: membership and the insert
//! position are found by binary search over the order-statistics tree, and
//! the tree's rotations keep every operation logarithmic.

use crate::avl_tree_vec::AvlTreeVec;
use vstd::prelude::*;

verus! {

/// Strictly increasing: no duplicates, ascending order.
pub open spec fn sorted_strict(s: Seq<i32>) -> bool {
    forall|i: int, j: int| 0 <= i < j < s.len() ==> s[i] < s[j]
}

/// A strictly sorted sequence has no duplicates, so its length is the
/// cardinality of the set of its elements.
proof fn lemma_sorted_to_set_len(s: Seq<i32>)
    requires
        sorted_strict(s),
    ensures
        s.to_set().finite(),
        s.to_set().len() == s.len(),
{
    broadcast use vstd::seq_lib::seq_to_set_is_finite;

    assert(s.no_duplicates()) by {
        assert forall|i: int, j: int|
            0 <= i < s.len() && 0 <= j < s.len() && i != j implies s[i] != s[j] by {
            if i < j {
                assert(s[i] < s[j]);
            } else {
                assert(s[j] < s[i]);
            }
        }
    }
    s.unique_seq_to_set();
}

/// Inserting an element anywhere in a sequence adds it to the element set.
proof fn lemma_to_set_insert_at(s: Seq<i32>, p: int, x: i32)
    requires
        0 <= p <= s.len(),
    ensures
        s.insert(p, x).to_set() == s.to_set().insert(x),
{
    let t = s.insert(p, x);
    s.insert_ensures(p, x);
    assert forall|y: i32| t.to_set().contains(y) implies s.to_set().contains(y) || y == x by {
        let i = choose|i: int| 0 <= i < t.len() && t[i] == y;
        if i < p {
            assert(s[i] == y);
            assert(s.contains(y));
        } else if i > p {
            assert(s[i - 1] == y);
            assert(s.contains(y));
        }
    }
    assert forall|y: i32| s.to_set().contains(y) implies t.to_set().contains(y) by {
        let i = choose|i: int| 0 <= i < s.len() && s[i] == y;
        if i < p {
            assert(t[i] == y);
        } else {
            assert(t[i + 1] == y);
        }
        assert(t.contains(y));
    }
    assert(t.to_set().contains(x)) by {
        assert(t[p] == x);
        assert(t.contains(x));
    }
    assert(t.to_set() =~= s.to_set().insert(x));
}

/// Removing the only position holding `s[p]` removes it from the element set.
proof fn lemma_to_set_remove_at(s: Seq<i32>, p: int)
    requires
        0 <= p < s.len(),
        sorted_strict(s),
    ensures
        s.remove(p).to_set() == s.to_set().remove(s[p]),
{
    let t = s.remove(p);
    let x = s[p];
    s.remove_ensures(p);
    assert forall|y: i32| t.to_set().contains(y) implies s.to_set().contains(y) && y != x by {
        let i = choose|i: int| 0 <= i < t.len() && t[i] == y;
        if i < p {
            assert(s[i] == y && s[i] != x);
            assert(s.contains(y));
        } else {
            assert(s[i + 1] == y && s[i + 1] != x);
            assert(s.contains(y));
        }
    }
    assert forall|y: i32| s.to_set().contains(y) && y != x implies t.to_set().contains(y) by {
        let i = choose|i: int| 0 <= i < s.len() && s[i] == y;
        if i < p {
            assert(t[i] == y);
        } else {
            assert(i > p);
            assert(t[i - 1] == y);
        }
        assert(t.contains(y));
    }
    assert(t.to_set() =~= s.to_set().remove(x));
}

/// The first position whose element is at least `x` in a strictly sorted
/// tree-backed sequence, found by binary search.
fn lower_bound(v: &AvlTreeVec<i32>, x: i32) -> (p: usize)
    requires
        v.well_formed(),
        sorted_strict(v@),
    ensures
        p <= v@.len(),
        forall|i: int| 0 <= i < p ==> v@[i] < x,
        forall|i: int| p <= i < v@.len() ==> v@[i] >= x,
{
    let mut lo: usize = 0;
    let mut hi: usize = v.len();
    while lo < hi
        invariant
            v.well_formed(),
            sorted_strict(v@),
            lo <= hi <= v@.len(),
            forall|i: int| 0 <= i < lo ==> v@[i] < x,
            forall|i: int| hi <= i < v@.len() ==> v@[i] >= x,
        decreases hi - lo,
    {
        let mid = lo + (hi - lo) / 2;
        if *v.index(mid) < x {
            lo = mid + 1;
        } else {
            hi = mid;
        }
    }
    lo
}

/// A set of `i32` values stored in ascending order in a balanced tree.
pub struct AvlTreeSet {
    items: AvlTreeVec<i32>,
}

impl View for AvlTreeSet {
    type V = Set<i32>;

    closed spec fn view(&self) -> Set<i32> {
        self.items@.to_set()
    }
}

impl AvlTreeSet {
    /// The structural invariant: the backing tree is well formed and its
    /// in-order sequence is strictly increasing.
    pub closed spec fn well_formed(self) -> bool {
        &&& self.items.well_formed()
        &&& sorted_strict(self.items@)
    }

    /// The elements in ascending order.
    pub closed spec fn inorder(self) -> Seq<i32> {
        self.items@
    }

    /// Creates an empty set.
    pub fn new() -> (s: Self)
        ensures
            s.well_formed(),
            s@ == Set::<i32>::empty(),
            s.inorder() == Seq::<i32>::empty(),
    {
        let s = AvlTreeSet { items: AvlTreeVec::new() };
        proof {
            assert(s@ =~= Set::<i32>::empty());
        }
        s
    }

    /// Removes every element.
    pub fn clear(&mut self)
        ensures
            final(self).well_formed(),
            final(self)@ == Set::<i32>::empty(),
    {
        self.items.clear();
        proof {
            assert(self@ =~= Set::<i32>::empty());
        }
    }

    /// How many elements the set holds.
    pub fn len(&self) -> (n: usize)
        requires
            self.well_formed(),
        ensures
            n == self.inorder().len(),
            n == self@.len(),
    {
        proof {
            lemma_sorted_to_set_len(self.items@);
        }
        self.items.len()
    }

    /// Whether the set holds no elements.
    pub fn is_empty(&self) -> (r: bool)
        requires
            self.well_formed(),
        ensures
            r == (self@.len() == 0),
    {
        self.len() == 0
    }

    /// Adds `value`; reports whether it was new.
    pub fn insert(&mut self, value: i32) -> (r: bool)
        requires
            old(self).well_formed(),
            old(self).inorder().len() < usize::MAX,
        ensures
            final(self).well_formed(),
            r == !old(self)@.contains(value),
            final(self)@ == old(self)@.insert(value),
            r ==> final(self).inorder() == old(self).inorder().insert(
                lower_pos(old(self).inorder(), value),
                value,
            ),
            !r ==> final(self).inorder() == old(self).inorder(),
    {
        let ghost s0 = self.items@;
        let p = lower_bound(&self.items, value);
        if p < self.items.len() && *self.items.index(p) == value {
            proof {
                assert(s0.contains(value));
                assert(self@.contains(value));
                assert(self@ =~= self@.insert(value));
                lemma_lower_pos_char(s0, value);
            }
            false
        } else {
            proof {
                assert(!s0.to_set().contains(value)) by {
                    if s0.to_set().contains(value) {
                        let i = choose|i: int| 0 <= i < s0.len() && s0[i] == value;
                        assert(i >= p);
                        if i > p {
                            assert(s0[p as int] < s0[i]);
                        }
                    }
                }
            }
            self.items.insert(p, value);
            proof {
                s0.insert_ensures(p as int, value);
                assert(sorted_strict(self.items@)) by {
                    assert forall|i: int, j: int|
                        0 <= i < j < self.items@.len() implies self.items@[i] < self.items@[j] by {
                        if i < p && j < p {
                        } else if i < p && j == p {
                        } else if i < p && j > p {
                            assert(self.items@[j] == s0[j - 1] && s0[j - 1] >= value);
                            assert(s0[j - 1] != value);
                        } else if i == p && j > p {
                            assert(self.items@[j] == s0[j - 1] && s0[j - 1] >= value);
                            assert(s0[j - 1] != value);
                        } else {
                            assert(self.items@[i] == s0[i - 1] && self.items@[j] == s0[j - 1]);
                        }
                    }
                }
                lemma_to_set_insert_at(s0, p as int, value);
                lemma_lower_pos_char(s0, value);
                assert(p as int == lower_pos(s0, value)) by {
                    let lp = lower_pos(s0, value);
                    if (p as int) < lp {
                        assert(s0[p as int] < value);
                        assert(s0[p as int] >= value);
                    }
                    if (p as int) > lp {
                        assert(s0[lp] >= value);
                        assert(s0[lp] < value);
                    }
                }
            }
            true
        }
    }

    /// Whether `value` is in the set.
    pub fn contains(&self, value: &i32) -> (r: bool)
        requires
            self.well_formed(),
        ensures
            r == self@.contains(*value),
    {
        let ghost s0 = self.items@;
        let x = *value;
        let p = lower_bound(&self.items, x);
        if p < self.items.len() && *self.items.index(p) == x {
            proof {
                assert(s0.contains(x));
            }
            true
        } else {
            proof {
                assert(!s0.to_set().contains(x)) by {
                    if s0.to_set().contains(x) {
                        let i = choose|i: int| 0 <= i < s0.len() && s0[i] == x;
                        assert(i >= p);
                        if i > p {
                            assert(s0[p as int] < s0[i]);
                        }
                    }
                }
            }
            false
        }
    }

    /// Removes `value`; reports whether it was there.
    pub fn remove(&mut self, value: &i32) -> (r: bool)
        requires
            old(self).well_formed(),
        ensures
            final(self).well_formed(),
            r == old(self)@.contains(*value),
            final(self)@ == old(self)@.remove(*value),
    {
        let ghost s0 = self.items@;
        let x = *value;
        let p = lower_bound(&self.items, x);
        if p < self.items.len() && *self.items.index(p) == x {
            proof {
                assert(s0.contains(x));
            }
            self.items.remove(p);
            proof {
                s0.remove_ensures(p as int);
                assert(sorted_strict(self.items@)) by {
                    assert forall|i: int, j: int|
                        0 <= i < j < self.items@.len() implies self.items@[i] < self.items@[j] by {
                        if i < p && j >= p {
                            assert(self.items@[j] == s0[j + 1]);
                        } else if i >= p {
                            assert(self.items@[i] == s0[i + 1] && self.items@[j] == s0[j + 1]);
                        }
                    }
                }
                lemma_to_set_remove_at(s0, p as int);
            }
            true
        } else {
            proof {
                assert(!s0.to_set().contains(x)) by {
                    if s0.to_set().contains(x) {
                        let i = choose|i: int| 0 <= i < s0.len() && s0[i] == x;
                        assert(i >= p);
                        if i > p {
                            assert(s0[p as int] < s0[i]);
                        }
                    }
                }
                assert(self@ =~= self@.remove(x));
            }
            false
        }
    }

    /// The `n`-th smallest element, or `None` exactly when fewer than
    /// `n + 1` elements are present.
    pub fn get_nth(&self, n: usize) -> (r: Option<&i32>)
        requires
            self.well_formed(),
        ensures
            n < self.inorder().len() ==> r is Some && *r.unwrap() == self.inorder()[n as int],
            n >= self.inorder().len() ==> r is None,
    {
        self.items.get(n)
    }

    /// The `n`-th largest element, or `None` exactly when fewer than
    /// `n + 1` elements are present.
    pub fn get_nth_back(&self, n: usize) -> (r: Option<&i32>)
        requires
            self.well_formed(),
        ensures
            n < self.inorder().len() ==> r is Some && *r.unwrap() == self.inorder()[self.inorder().len()
                - 1 - n],
            n >= self.inorder().len() ==> r is None,
    {
        let len = self.items.len();
        if n < len {
            self.items.get(len - 1 - n)
        } else {
            None
        }
    }

    /// Moves every element of `other` into `self`, leaving `other` empty.
    pub fn append(&mut self, other: &mut AvlTreeSet)
        requires
            old(self).well_formed(),
            old(other).well_formed(),
            old(self).inorder().len() + old(other).inorder().len() <= usize::MAX,
        ensures
            final(self).well_formed(),
            final(other).well_formed(),
            final(self)@ == old(self)@.union(old(other)@),
            final(other)@ == Set::<i32>::empty(),
    {
        let ghost o0 = other.items@;
        let n = other.len();
        let mut i: usize = 0;
        while i < n
            invariant
                old(self).well_formed(),
                self.well_formed(),
                other.well_formed(),
                other.items@ == o0,
                sorted_strict(o0),
                n == o0.len(),
                0 <= i <= n,
                old(self).inorder().len() + o0.len() <= usize::MAX,
                self@ == old(self)@.union(o0.take(i as int).to_set()),
                self.inorder().len() <= old(self).inorder().len() + i,
            decreases n - i,
        {
            let x = *other.items.index(i);
            proof {
                lemma_sorted_to_set_len(self.items@);
                lemma_sorted_to_set_len(old(self).inorder());
                vstd::set_lib::lemma_len_union::<i32>(
                    old(self)@,
                    o0.take(i as int).to_set(),
                );
                lemma_sorted_to_set_len(o0);
            }
            self.insert(x);
            proof {
                broadcast use vstd::prelude::Seq::lemma_to_set_insert_commutes;

                assert(o0.take(i + 1) == o0.take(i as int).push(x));
                assert(o0.take(i as int).push(x) == o0.take(i as int) + seq![x]);
                assert(self@ =~= old(self)@.union(o0.take(i + 1).to_set()));
                lemma_sorted_to_set_len(self.items@);
                lemma_sorted_to_set_len(old(self).inorder());
                vstd::set_lib::lemma_len_union::<i32>(
                    old(self)@,
                    o0.take(i + 1).to_set(),
                );
                assert(o0.take(i + 1).to_set().len() <= i + 1) by {
                    lemma_sorted_to_set_len(o0.take(i + 1));
                }
            }
            i = i + 1;
        }
        other.clear();
        proof {
            assert(o0.take(n as int) == o0);
            assert(self@ =~= old(self)@.union(old(other)@));
        }
    }

    /// Splits off and returns the elements that are `>= *value`; `self`
    /// keeps those `< *value`.
    pub fn split_off(&mut self, value: &i32) -> (r: AvlTreeSet)
        requires
            old(self).well_formed(),
        ensures
            final(self).well_formed(),
            r.well_formed(),
            final(self)@ == old(self)@.filter(|y: i32| y < *value),
            r@ == old(self)@.filter(|y: i32| y >= *value),
    {
        let ghost s0 = self.items@;
        let x = *value;
        let p = lower_bound(&self.items, x);
        let right = self.items.split_off(p);
        proof {
            assert(sorted_strict(self.items@));
            assert(sorted_strict(right@));
            assert(self@ =~= s0.to_set().filter(|y: i32| y < x)) by {
                assert forall|y: i32| self@.contains(y) implies s0.to_set().contains(y) && y
                    < x by {
                    let i = choose|i: int| 0 <= i < self.items@.len() && self.items@[i] == y;
                    assert(s0[i] == y);
                    assert(s0.contains(y));
                }
                assert forall|y: i32| s0.to_set().contains(y) && y < x implies self@.contains(
                    y,
                ) by {
                    let i = choose|i: int| 0 <= i < s0.len() && s0[i] == y;
                    assert(i < p);
                    assert(self.items@[i] == y);
                    assert(self.items@.contains(y));
                }
            }
            assert(right@.to_set() =~= s0.to_set().filter(|y: i32| y >= x)) by {
                assert forall|y: i32| right@.to_set().contains(y) implies s0.to_set().contains(y)
                    && y >= x by {
                    let i = choose|i: int| 0 <= i < right@.len() && right@[i] == y;
                    assert(s0[i + p] == y);
                    assert(s0.contains(y));
                }
                assert forall|y: i32| s0.to_set().contains(y) && y >= x implies right@.to_set()
                    .contains(y) by {
                    let i = choose|i: int| 0 <= i < s0.len() && s0[i] == y;
                    assert(i >= p);
                    assert(right@[i - p] == y);
                    assert(right@.contains(y));
                }
            }
        }
        AvlTreeSet { items: right }
    }

    /// The elements in ascending order.
    pub fn iter(&self) -> (r: Vec<i32>)
        requires
            self.well_formed(),
        ensures
            r@ == self.inorder(),
            r@.to_set() == self@,
            forall|i: int, j: int| 0 <= i < j < r@.len() ==> r@[i] < r@[j],
    {
        let n = self.items.len();
        let mut out: Vec<i32> = Vec::new();
        let mut i: usize = 0;
        while i < n
            invariant
                self.well_formed(),
                n == self.inorder().len(),
                0 <= i <= n,
                out@ == self.inorder().take(i as int),
            decreases n - i,
        {
            out.push(*self.items.index(i));
            proof {
                assert(out@ =~= self.inorder().take(i + 1));
            }
            i = i + 1;
        }
        proof {
            assert(self.inorder().take(n as int) == self.inorder());
        }
        out
    }

    /// Builds a set holding exactly the values of `v`.
    pub fn from_vec(v: Vec<i32>) -> (t: Self)
        ensures
            t.well_formed(),
            t@ == v@.to_set(),
    {
        let mut t = AvlTreeSet::new();
        let n = v.len();
        let mut i: usize = 0;
        while i < n
            invariant
                t.well_formed(),
                n == v@.len(),
                0 <= i <= n,
                t@ == v@.take(i as int).to_set(),
                t.inorder().len() <= i,
            decreases n - i,
        {
            let x = v[i];
            proof {
                lemma_sorted_to_set_len(t.inorder());
            }
            t.insert(x);
            proof {
                broadcast use vstd::prelude::Seq::lemma_to_set_insert_commutes;

                assert(v@.take(i + 1) == v@.take(i as int).push(x));
                assert(v@.take(i as int).push(x) == v@.take(i as int) + seq![x]);
                assert(t@ == v@.take(i + 1).to_set());
                lemma_sorted_to_set_len(t.inorder());
                assert(v@.take(i + 1).to_set().len() <= i + 1) by {
                    v@.take(i + 1).lemma_cardinality_of_set();
                }
            }
            i = i + 1;
        }
        proof {
            assert(v@.take(n as int) == v@);
        }
        t
    }
}

/// The number of elements of `s` that are smaller than `x`: for a strictly
/// sorted sequence, the position where `x` belongs.
pub open spec fn lower_pos(s: Seq<i32>, x: i32) -> int
    decreases s.len(),
{
    if s.len() == 0 {
        0
    } else if s[0] >= x {
        0
    } else {
        1 + lower_pos(s.drop_first(), x)
    }
}

/// For a strictly sorted sequence, `lower_pos` is the unique boundary:
/// everything before it is smaller than `x`, everything at or after it is
/// at least `x`.
pub proof fn lemma_lower_pos_char(s: Seq<i32>, x: i32)
    requires
        sorted_strict(s),
    ensures
        0 <= lower_pos(s, x) <= s.len(),
        forall|i: int| 0 <= i < lower_pos(s, x) ==> s[i] < x,
        forall|i: int| lower_pos(s, x) <= i < s.len() ==> s[i] >= x,
    decreases s.len(),
{
    if s.len() > 0 {
        if s[0] >= x {
            assert forall|i: int| 0 <= i < s.len() implies s[i] >= x by {
                if i > 0 {
                    assert(s[0] < s[i]);
                }
            }
        } else {
            let t = s.drop_first();
            assert(sorted_strict(t)) by {
                assert forall|i: int, j: int| 0 <= i < j < t.len() implies t[i] < t[j] by {
                    assert(t[i] == s[i + 1] && t[j] == s[j + 1]);
                }
            }
            lemma_lower_pos_char(t, x);
            let lp = 1 + lower_pos(t, x);
            assert forall|i: int| 0 <= i < lp implies s[i] < x by {
                if i > 0 {
                    assert(t[i - 1] == s[i]);
                }
            }
            assert forall|i: int| lp <= i < s.len() implies s[i] >= x by {
                assert(t[i - 1] == s[i]);
            }
        }
    }
}

/// A read-only cursor over a snapshot of a set's elements, ascending.
pub struct Iter {
    items: Vec<i32>,
    pos: usize,
}

impl View for Iter {
    type V = Seq<i32>;

    closed spec fn view(&self) -> Seq<i32> {
        self.items@.skip(self.pos as int)
    }
}

impl Iter {
    /// The cursor never points past the end of its snapshot.
    pub closed spec fn well_formed(self) -> bool {
        self.pos <= self.items@.len()
    }

    /// Starts a traversal over the elements of `s` in ascending order.
    pub fn new(s: &AvlTreeSet) -> (it: Iter)
        requires
            s.well_formed(),
        ensures
            it.well_formed(),
            it@ == s.inorder(),
    {
        let it = Iter { items: s.iter(), pos: 0 };
        proof {
            assert(it@ =~= s.inorder());
        }
        it
    }

    /// Hands out the next element, or `None` exactly when the traversal is
    /// finished.
    pub fn next(&mut self) -> (r: Option<i32>)
        requires
            old(self).well_formed(),
        ensures
            final(self).well_formed(),
            old(self)@.len() > 0 ==> r == Some(old(self)@.first())
                && final(self)@ == old(self)@.drop_first(),
            old(self)@.len() == 0 ==> r is None && final(self)@ == old(self)@,
    {
        if self.pos < self.items.len() {
            let v = self.items[self.pos];
            self.pos = self.pos + 1;
            proof {
                assert(self@ =~= old(self)@.drop_first());
            }
            Some(v)
        } else {
            None
        }
    }
}

/// An owning cursor over a set's elements, ascending; the set is consumed.
pub struct IntoIter {
    items: Vec<i32>,
    pos: usize,
}

impl View for IntoIter {
    type V = Seq<i32>;

    closed spec fn view(&self) -> Seq<i32> {
        self.items@.skip(self.pos as int)
    }
}

impl IntoIter {
    /// The cursor never points past the end of its snapshot.
    pub closed spec fn well_formed(self) -> bool {
        self.pos <= self.items@.len()
    }

    /// Consumes `s` and starts a traversal over its elements in ascending
    /// order.
    pub fn new(s: AvlTreeSet) -> (it: IntoIter)
        requires
            s.well_formed(),
        ensures
            it.well_formed(),
            it@ == s.inorder(),
    {
        let it = IntoIter { items: s.iter(), pos: 0 };
        proof {
            assert(it@ =~= s.inorder());
        }
        it
    }

    /// Hands out the next element, or `None` exactly when the traversal is
    /// finished.
    pub fn next(&mut self) -> (r: Option<i32>)
        requires
            old(self).well_formed(),
        ensures
            final(self).well_formed(),
            old(self)@.len() > 0 ==> r == Some(old(self)@.first())
                && final(self)@ == old(self)@.drop_first(),
            old(self)@.len() == 0 ==> r is None && final(self)@ == old(self)@,
    {
        if self.pos < self.items.len() {
            let v = self.items[self.pos];
            self.pos = self.pos + 1;
            proof {
                assert(self@ =~= old(self)@.drop_first());
            }
            Some(v)
        } else {
            None
        }
    }
}

} // verus!
