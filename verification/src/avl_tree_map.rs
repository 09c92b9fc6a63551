//! A map from `i64` keys to values, kept in height-balanced trees.
//!
//! The keys live in an [`AvlTreeVec`] in strictly increasing order and the
//! values in a second one, aligned position by position; a key's value
//! therefore sits at the key's rank, and lookup is a binary search over the
//! order-statistics tree.

use crate::avl_tree_vec::AvlTreeVec;
use vstd::prelude::*;

verus! {

/// Strictly increasing: no duplicate keys, ascending order.
pub open spec fn sorted_keys(s: Seq<i64>) -> bool {
    forall|i: int, j: int| 0 <= i < j < s.len() ==> s[i] < s[j]
}

/// The number of keys of `s` that are smaller than `k`: for a strictly
/// sorted key sequence, the rank where `k` belongs.
pub open spec fn key_pos(s: Seq<i64>, k: i64) -> int
    decreases s.len(),
{
    if s.len() == 0 {
        0
    } else if s[0] >= k {
        0
    } else {
        1 + key_pos(s.drop_first(), k)
    }
}

/// For a strictly sorted key sequence, `key_pos` is the unique boundary:
/// every key before it is smaller than `k`, every key at or after it is at
/// least `k`.
pub proof fn lemma_key_pos_char(s: Seq<i64>, k: i64)
    requires
        sorted_keys(s),
    ensures
        0 <= key_pos(s, k) <= s.len(),
        forall|i: int| 0 <= i < key_pos(s, k) ==> s[i] < k,
        forall|i: int| key_pos(s, k) <= i < s.len() ==> s[i] >= k,
    decreases s.len(),
{
    if s.len() > 0 {
        if s[0] >= k {
            assert forall|i: int| 0 <= i < s.len() implies s[i] >= k by {
                if i > 0 {
                    assert(s[0] < s[i]);
                }
            }
        } else {
            let t = s.drop_first();
            assert(sorted_keys(t)) by {
                assert forall|i: int, j: int| 0 <= i < j < t.len() implies t[i] < t[j] by {
                    assert(t[i] == s[i + 1] && t[j] == s[j + 1]);
                }
            }
            lemma_key_pos_char(t, k);
            let lp = 1 + key_pos(t, k);
            assert forall|i: int| 0 <= i < lp implies s[i] < k by {
                if i > 0 {
                    assert(t[i - 1] == s[i]);
                }
            }
            assert forall|i: int| lp <= i < s.len() implies s[i] >= k by {
                assert(t[i - 1] == s[i]);
            }
        }
    }
}

/// The rank of `k` in a strictly sorted tree-backed key sequence, found by
/// binary search: it equals `key_pos(v@, k)`.
fn find_key_pos(v: &AvlTreeVec<i64>, k: i64) -> (p: usize)
    requires
        v.well_formed(),
        sorted_keys(v@),
    ensures
        p as int == key_pos(v@, k),
        p <= v@.len(),
        forall|i: int| 0 <= i < p ==> v@[i] < k,
        forall|i: int| p <= i < v@.len() ==> v@[i] >= k,
{
    let mut lo: usize = 0;
    let mut hi: usize = v.len();
    while lo < hi
        invariant
            v.well_formed(),
            sorted_keys(v@),
            lo <= hi <= v@.len(),
            forall|i: int| 0 <= i < lo ==> v@[i] < k,
            forall|i: int| hi <= i < v@.len() ==> v@[i] >= k,
        decreases hi - lo,
    {
        let mid = lo + (hi - lo) / 2;
        if *v.index(mid) < k {
            lo = mid + 1;
        } else {
            hi = mid;
        }
    }
    proof {
        lemma_key_pos_char(v@, k);
        let lp = key_pos(v@, k);
        if (lo as int) < lp {
            assert(v@[lo as int] < k);
            assert(v@[lo as int] >= k);
        }
        if (lo as int) > lp {
            assert(v@[lp] >= k);
            assert(v@[lp] < k);
        }
    }
    lo
}

/// The value aligned with key `k`: the entry at the key's rank.
pub open spec fn value_at<V>(keys: Seq<i64>, vals: Seq<V>, k: i64) -> V {
    vals[key_pos(keys, k)]
}

/// In a strictly sorted key sequence, every key's rank is its own index.
proof fn lemma_key_pos_of_index(s: Seq<i64>, i: int)
    requires
        sorted_keys(s),
        0 <= i < s.len(),
    ensures
        key_pos(s, s[i]) == i,
{
    lemma_key_pos_char(s, s[i]);
    let kp = key_pos(s, s[i]);
    if kp < i {
        assert(s[kp] >= s[i]);
        assert(s[kp] < s[i]);
    }
    if kp > i {
        assert(s[i] < s[i]);
    }
}

/// Inserting a fresh key at its rank keeps the keys sorted, adds exactly
/// that key, binds it to the inserted value, and leaves every existing
/// key's value where it was.
proof fn lemma_value_at_insert<V>(keys: Seq<i64>, vals: Seq<V>, k: i64, v: V)
    requires
        sorted_keys(keys),
        keys.len() == vals.len(),
        !keys.contains(k),
    ensures
        ({
            let p = key_pos(keys, k);
            let nk = keys.insert(p, k);
            let nv = vals.insert(p, v);
            &&& sorted_keys(nk)
            &&& nk.len() == keys.len() + 1
            &&& nv.len() == vals.len() + 1
            &&& forall|k2: i64| #[trigger] nk.contains(k2) <==> keys.contains(k2) || k2 == k
            &&& value_at(nk, nv, k) == v
            &&& forall|k2: i64|
                keys.contains(k2) ==> value_at(nk, nv, k2) == value_at(keys, vals, k2)
        }),
{
    lemma_key_pos_char(keys, k);
    let p = key_pos(keys, k);
    let nk = keys.insert(p, k);
    let nv = vals.insert(p, v);
    keys.insert_ensures(p, k);
    vals.insert_ensures(p, v);
    assert forall|i: int| p <= i < keys.len() implies keys[i] > k by {
        assert(keys[i] >= k);
        if keys[i] == k {
            assert(keys.contains(k));
        }
    }
    assert(sorted_keys(nk)) by {
        assert forall|i: int, j: int| 0 <= i < j < nk.len() implies nk[i] < nk[j] by {
            if i < p && j > p {
                assert(nk[i] == keys[i] && nk[j] == keys[j - 1]);
            } else if i < p && j == p {
                assert(nk[i] == keys[i]);
            } else if i == p {
                assert(nk[j] == keys[j - 1] && keys[j - 1] > k);
            } else if i > p {
                assert(nk[i] == keys[i - 1] && nk[j] == keys[j - 1]);
            }
        }
    }
    assert forall|k2: i64| #[trigger] nk.contains(k2) implies keys.contains(k2) || k2 == k by {
        let i = choose|i: int| 0 <= i < nk.len() && nk[i] == k2;
        if i < p {
            assert(keys[i] == k2);
            assert(keys.contains(k2));
        } else if i > p {
            assert(keys[i - 1] == k2);
            assert(keys.contains(k2));
        }
    }
    assert forall|k2: i64| keys.contains(k2) || k2 == k implies #[trigger] nk.contains(k2) by {
        if keys.contains(k2) {
            let i = choose|i: int| 0 <= i < keys.len() && keys[i] == k2;
            if i < p {
                assert(nk[i] == k2);
            } else {
                assert(nk[i + 1] == k2);
            }
            assert(nk.contains(k2));
        } else {
            assert(nk[p] == k);
            assert(nk.contains(k));
        }
    }
    lemma_key_pos_of_index(nk, p);
    assert(value_at(nk, nv, k) == v);
    assert forall|k2: i64|
        keys.contains(k2) implies value_at(nk, nv, k2) == value_at(keys, vals, k2) by {
        let i = choose|i: int| 0 <= i < keys.len() && keys[i] == k2;
        lemma_key_pos_of_index(keys, i);
        if i < p {
            assert(nk[i] == k2);
            lemma_key_pos_of_index(nk, i);
            assert(nv[i] == vals[i]);
        } else {
            assert(nk[i + 1] == k2);
            lemma_key_pos_of_index(nk, i + 1);
            assert(nv[i + 1] == vals[i]);
        }
    }
}

/// A map from `i64` keys to `V` values in height-balanced trees.
pub struct AvlTreeMap<V> {
    keys: AvlTreeVec<i64>,
    vals: AvlTreeVec<V>,
}

impl<V> AvlTreeMap<V> {
    /// The structural invariant: both trees are well formed, the keys are
    /// strictly increasing, and each key's value sits at the key's rank.
    pub closed spec fn well_formed(self) -> bool {
        &&& self.keys.well_formed()
        &&& self.vals.well_formed()
        &&& sorted_keys(self.keys@)
        &&& self.keys@.len() == self.vals@.len()
    }

    /// The keys in ascending order.
    pub closed spec fn keys(self) -> Seq<i64> {
        self.keys@
    }

    /// The values, aligned with `keys()`.
    pub closed spec fn vals(self) -> Seq<V> {
        self.vals@
    }

    /// Creates an empty map.
    pub fn new() -> (m: Self)
        ensures
            m.well_formed(),
            m.keys() == Seq::<i64>::empty(),
            m.vals() == Seq::<V>::empty(),
    {
        AvlTreeMap { keys: AvlTreeVec::new(), vals: AvlTreeVec::new() }
    }

    /// Removes every entry.
    pub fn clear(&mut self)
        ensures
            final(self).well_formed(),
            final(self).keys() == Seq::<i64>::empty(),
            final(self).vals() == Seq::<V>::empty(),
    {
        self.keys.clear();
        self.vals.clear();
    }

    /// How many entries the map holds.
    pub fn len(&self) -> (n: usize)
        requires
            self.well_formed(),
        ensures
            n == self.keys().len(),
    {
        self.keys.len()
    }

    /// Whether the map holds no entries.
    pub fn is_empty(&self) -> (r: bool)
        requires
            self.well_formed(),
        ensures
            r == (self.keys().len() == 0),
    {
        self.len() == 0
    }

    /// Binds `value` to `key` if the key is absent; an existing binding is
    /// left untouched.  Reports whether the key was new.
    pub fn insert(&mut self, key: i64, value: V) -> (r: bool)
        requires
            old(self).well_formed(),
            old(self).keys().len() < usize::MAX,
        ensures
            final(self).well_formed(),
            r == !old(self).keys().contains(key),
            r ==> final(self).keys() == old(self).keys().insert(
                key_pos(old(self).keys(), key),
                key,
            ),
            r ==> final(self).vals() == old(self).vals().insert(
                key_pos(old(self).keys(), key),
                value,
            ),
            !r ==> final(self).keys() == old(self).keys() && final(self).vals() == old(
                self,
            ).vals(),
    {
        let ghost s0 = self.keys@;
        let p = find_key_pos(&self.keys, key);
        if p < self.keys.len() && *self.keys.index(p) == key {
            proof {
                assert(s0.contains(key));
            }
            false
        } else {
            proof {
                assert(!s0.contains(key)) by {
                    if s0.contains(key) {
                        let i = choose|i: int| 0 <= i < s0.len() && s0[i] == key;
                        assert(i >= p);
                        if i > p {
                            assert(s0[p as int] < s0[i]);
                        }
                    }
                }
            }
            self.keys.insert(p, key);
            self.vals.insert(p, value);
            proof {
                s0.insert_ensures(p as int, key);
                assert(sorted_keys(self.keys@)) by {
                    assert forall|i: int, j: int|
                        0 <= i < j < self.keys@.len() implies self.keys@[i] < self.keys@[j] by {
                        if i < p && j > p {
                            assert(self.keys@[j] == s0[j - 1] && s0[j - 1] >= key);
                            assert(s0[j - 1] != key);
                        } else if i == p && j > p {
                            assert(self.keys@[j] == s0[j - 1] && s0[j - 1] >= key);
                            assert(s0[j - 1] != key);
                        } else if i > p {
                            assert(self.keys@[i] == s0[i - 1] && self.keys@[j] == s0[j - 1]);
                        }
                    }
                }
            }
            true
        }
    }

    /// Whether `key` is bound in the map.
    pub fn contains_key(&self, key: &i64) -> (r: bool)
        requires
            self.well_formed(),
        ensures
            r == self.keys().contains(*key),
    {
        let ghost s0 = self.keys@;
        let k = *key;
        let p = find_key_pos(&self.keys, k);
        if p < self.keys.len() && *self.keys.index(p) == k {
            proof {
                assert(s0.contains(k));
            }
            true
        } else {
            proof {
                assert(!s0.contains(k)) by {
                    if s0.contains(k) {
                        let i = choose|i: int| 0 <= i < s0.len() && s0[i] == k;
                        assert(i >= p);
                        if i > p {
                            assert(s0[p as int] < s0[i]);
                        }
                    }
                }
            }
            false
        }
    }

    /// The value bound to `key`, or `None` exactly when the key is absent.
    pub fn get(&self, key: &i64) -> (r: Option<&V>)
        requires
            self.well_formed(),
        ensures
            r is Some <==> self.keys().contains(*key),
            r is Some ==> *r.unwrap() == self.vals()[key_pos(self.keys(), *key)],
    {
        let ghost s0 = self.keys@;
        let k = *key;
        let p = find_key_pos(&self.keys, k);
        if p < self.keys.len() && *self.keys.index(p) == k {
            proof {
                assert(s0.contains(k));
            }
            self.vals.get(p)
        } else {
            proof {
                assert(!s0.contains(k)) by {
                    if s0.contains(k) {
                        let i = choose|i: int| 0 <= i < s0.len() && s0[i] == k;
                        assert(i >= p);
                        if i > p {
                            assert(s0[p as int] < s0[i]);
                        }
                    }
                }
            }
            None
        }
    }

    /// A mutable borrow of the value bound to `key`, or `None` exactly when
    /// the key is absent.  Writing through the borrow changes that value and
    /// nothing else.
    pub fn get_mut(&mut self, key: &i64) -> (r: Option<&mut V>)
        requires
            old(self).well_formed(),
        ensures
            final(self).well_formed(),
            r is Some <==> old(self).keys().contains(*key),
            final(self).keys() == old(self).keys(),
            r is Some ==> *r.unwrap() == old(self).vals()[key_pos(old(self).keys(), *key)]
                && final(self).vals() == old(self).vals().update(
                key_pos(old(self).keys(), *key),
                *final(r.unwrap()),
            ),
            r is None ==> final(self).vals() == old(self).vals(),
    {
        let ghost s0 = self.keys@;
        let k = *key;
        let p = find_key_pos(&self.keys, k);
        if p < self.keys.len() && *self.keys.index(p) == k {
            proof {
                assert(s0.contains(k));
            }
            self.vals.get_mut(p)
        } else {
            proof {
                assert(!s0.contains(k)) by {
                    if s0.contains(k) {
                        let i = choose|i: int| 0 <= i < s0.len() && s0[i] == k;
                        assert(i >= p);
                        if i > p {
                            assert(s0[p as int] < s0[i]);
                        }
                    }
                }
            }
            None
        }
    }

    /// Unbinds `key`; reports whether it was bound.
    pub fn remove(&mut self, key: &i64) -> (r: bool)
        requires
            old(self).well_formed(),
        ensures
            final(self).well_formed(),
            r == old(self).keys().contains(*key),
            r ==> final(self).keys() == old(self).keys().remove(key_pos(old(self).keys(), *key))
                && final(self).vals() == old(self).vals().remove(key_pos(old(self).keys(), *key)),
            !r ==> final(self).keys() == old(self).keys() && final(self).vals() == old(
                self,
            ).vals(),
    {
        let ghost s0 = self.keys@;
        let k = *key;
        let p = find_key_pos(&self.keys, k);
        if p < self.keys.len() && *self.keys.index(p) == k {
            proof {
                assert(s0.contains(k));
            }
            self.keys.remove(p);
            self.vals.remove(p);
            proof {
                s0.remove_ensures(p as int);
                assert(sorted_keys(self.keys@)) by {
                    assert forall|i: int, j: int|
                        0 <= i < j < self.keys@.len() implies self.keys@[i] < self.keys@[j] by {
                        if i < p && j >= p {
                            assert(self.keys@[j] == s0[j + 1]);
                        } else if i >= p {
                            assert(self.keys@[i] == s0[i + 1] && self.keys@[j] == s0[j + 1]);
                        }
                    }
                }
            }
            true
        } else {
            proof {
                assert(!s0.contains(k)) by {
                    if s0.contains(k) {
                        let i = choose|i: int| 0 <= i < s0.len() && s0[i] == k;
                        assert(i >= p);
                        if i > p {
                            assert(s0[p as int] < s0[i]);
                        }
                    }
                }
            }
            false
        }
    }

    /// Moves every entry of `other` into `self`, leaving `other` empty;
    /// where both maps bind the same key, `self`'s binding wins.
    pub fn append(&mut self, other: &mut Self) where V: Copy
        requires
            old(self).well_formed(),
            old(other).well_formed(),
            old(self).keys().len() + old(other).keys().len() <= usize::MAX,
        ensures
            final(self).well_formed(),
            final(other).well_formed(),
            final(other).keys() == Seq::<i64>::empty(),
            final(other).vals() == Seq::<V>::empty(),
            forall|k: i64| #[trigger]
                final(self).keys().contains(k) <==> old(self).keys().contains(k) || old(
                    other,
                ).keys().contains(k),
            forall|k: i64| #[trigger]
                old(self).keys().contains(k) ==> value_at(
                    final(self).keys(),
                    final(self).vals(),
                    k,
                ) == value_at(old(self).keys(), old(self).vals(), k),
            forall|k: i64|
                !old(self).keys().contains(k) && #[trigger] old(other).keys().contains(k)
                    ==> value_at(final(self).keys(), final(self).vals(), k) == value_at(
                    old(other).keys(),
                    old(other).vals(),
                    k,
                ),
    {
        let ghost ok0 = other.keys@;
        let ghost ov0 = other.vals@;
        let n = other.len();
        let mut i: usize = 0;
        while i < n
            invariant
                old(self).well_formed(),
                self.well_formed(),
                other.keys@ == ok0,
                other.vals@ == ov0,
                other.well_formed(),
                sorted_keys(ok0),
                ok0.len() == ov0.len(),
                n == ok0.len(),
                0 <= i <= n,
                old(self).keys().len() + ok0.len() <= usize::MAX,
                self.keys().len() <= old(self).keys().len() + i,
                forall|k: i64| #[trigger]
                    self.keys().contains(k) <==> old(self).keys().contains(k) || ok0.take(
                        i as int,
                    ).contains(k),
                forall|k: i64| #[trigger]
                    old(self).keys().contains(k) ==> value_at(self.keys(), self.vals(), k)
                        == value_at(old(self).keys(), old(self).vals(), k),
                forall|k: i64|
                    !old(self).keys().contains(k) && #[trigger] ok0.take(i as int).contains(k)
                        ==> value_at(self.keys(), self.vals(), k) == value_at(ok0, ov0, k),
            decreases n - i,
        {
            let k = *other.keys.index(i);
            let v = *other.vals.index(i);
            let ghost pk = self.keys@;
            let ghost pv = self.vals@;
            let fresh = !self.contains_key(&k);
            if fresh {
                proof {
                    lemma_value_at_insert(pk, pv, k, v);
                }
                self.insert(k, v);
                proof {
                    assert forall|k2: i64| #[trigger]
                        old(self).keys().contains(k2) implies value_at(
                        self.keys(),
                        self.vals(),
                        k2,
                    ) == value_at(old(self).keys(), old(self).vals(), k2) by {
                        assert(pk.contains(k2));
                        assert(value_at(self.keys(), self.vals(), k2) == value_at(pk, pv, k2));
                    }
                    assert forall|k2: i64|
                        !old(self).keys().contains(k2) && #[trigger] ok0.take(
                            i as int,
                        ).contains(k2) implies value_at(self.keys(), self.vals(), k2) == value_at(
                        ok0,
                        ov0,
                        k2,
                    ) by {
                        assert(pk.contains(k2));
                        assert(value_at(self.keys(), self.vals(), k2) == value_at(pk, pv, k2));
                    }
                }
            }
            proof {
                broadcast use vstd::seq_lib::lemma_seq_contains_after_push;

                assert(ok0.take(i + 1) == ok0.take(i as int).push(k));
                lemma_key_pos_of_index(ok0, i as int);
                assert(value_at(ok0, ov0, k) == ov0[i as int]);
                assert forall|k2: i64| #[trigger]
                    self.keys().contains(k2) <==> (old(self).keys().contains(k2) || ok0.take(
                        i + 1,
                    ).contains(k2)) by {
                    assert(ok0.take(i + 1).contains(k2) == (ok0.take(i as int).contains(k2) || k2
                        == k));
                    if !fresh {
                        assert(pk.contains(k));
                    }
                }
                if fresh {
                    assert(value_at(self.keys(), self.vals(), k) == v);
                }
            }
            i = i + 1;
        }
        other.clear();
        proof {
            assert(ok0.take(n as int) == ok0);
        }
    }

    /// Splits off and returns the entries whose keys are `>= *key`; `self`
    /// keeps those with smaller keys.
    pub fn split_off(&mut self, key: &i64) -> (r: Self)
        requires
            old(self).well_formed(),
        ensures
            final(self).well_formed(),
            r.well_formed(),
            final(self).keys() == old(self).keys().take(key_pos(old(self).keys(), *key)),
            final(self).vals() == old(self).vals().take(key_pos(old(self).keys(), *key)),
            r.keys() == old(self).keys().skip(key_pos(old(self).keys(), *key)),
            r.vals() == old(self).vals().skip(key_pos(old(self).keys(), *key)),
    {
        let ghost s0 = self.keys@;
        let p = find_key_pos(&self.keys, *key);
        let rk = self.keys.split_off(p);
        let rv = self.vals.split_off(p);
        proof {
            assert(sorted_keys(self.keys@)) by {
                assert forall|i: int, j: int|
                    0 <= i < j < self.keys@.len() implies self.keys@[i] < self.keys@[j] by {
                    assert(self.keys@[i] == s0[i] && self.keys@[j] == s0[j]);
                }
            }
            assert(sorted_keys(rk@)) by {
                assert forall|i: int, j: int| 0 <= i < j < rk@.len() implies rk@[i] < rk@[j] by {
                    assert(rk@[i] == s0[i + p] && rk@[j] == s0[j + p]);
                }
            }
        }
        AvlTreeMap { keys: rk, vals: rv }
    }

    /// The entries in ascending key order, as copied pairs.
    pub fn iter(&self) -> (r: Vec<(i64, V)>) where V: Copy
        requires
            self.well_formed(),
        ensures
            r@.len() == self.keys().len(),
            forall|i: int|
                0 <= i < r@.len() ==> #[trigger] r@[i] == (self.keys()[i], self.vals()[i]),
    {
        let n = self.keys.len();
        let mut out: Vec<(i64, V)> = Vec::new();
        let mut i: usize = 0;
        while i < n
            invariant
                self.well_formed(),
                n == self.keys().len(),
                0 <= i <= n,
                out@.len() == i,
                forall|j: int|
                    0 <= j < i ==> #[trigger] out@[j] == (self.keys()[j], self.vals()[j]),
            decreases n - i,
        {
            let k = *self.keys.index(i);
            let v = *self.vals.index(i);
            out.push((k, v));
            i = i + 1;
        }
        out
    }
}

} // verus!
