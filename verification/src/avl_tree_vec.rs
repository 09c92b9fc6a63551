//! A sequence stored in a height-balanced binary tree.
//!
//! The tree encodes *position*, not a key: every node caches the size and the
//! height of its subtree, so the k-th element is found by descending on the
//! cached sizes, and insertion or removal at any index runs in logarithmic
//! time.  Every mutation is compiled down to "split around the position,
//! rebuild with or without a node, merge back", and each step rebalances, so
//! the AVL height invariant holds after every public operation.

use vstd::prelude::*;

verus! {

struct Node<V> {
    value: V,
    len: usize,
    height: usize,
    left: Option<Box<Node<V>>>,
    right: Option<Box<Node<V>>>,
}

/// The sequence of values held by a subtree, in symmetric (in-order) order.
spec fn seq_of<V>(node: Option<Box<Node<V>>>) -> Seq<V>
    decreases node,
{
    match node {
        None => Seq::empty(),
        Some(b) => seq_of(b.left).push(b.value) + seq_of(b.right),
    }
}

/// How many nodes a subtree holds; an absent subtree holds none.
spec fn size_of<V>(node: Option<Box<Node<V>>>) -> nat
    decreases node,
{
    match node {
        None => 0,
        Some(b) => size_of(b.left) + size_of(b.right) + 1,
    }
}

spec fn max_nat(a: nat, b: nat) -> nat {
    if a >= b {
        a
    } else {
        b
    }
}

/// The height of a subtree; an absent subtree has height 0.
spec fn height_of<V>(node: Option<Box<Node<V>>>) -> nat
    decreases node,
{
    match node {
        None => 0,
        Some(b) => 1 + max_nat(height_of(b.left), height_of(b.right)),
    }
}

/// The cached size and height of a node agree with its current children.
spec fn refreshed<V>(n: Node<V>) -> bool {
    &&& n.len == size_of(n.left) + size_of(n.right) + 1
    &&& n.height == 1 + max_nat(height_of(n.left), height_of(n.right))
}

/// The AVL condition at one node: the children's heights differ by at most 1.
spec fn node_balanced<V>(n: Node<V>) -> bool {
    &&& height_of(n.left) <= height_of(n.right) + 1
    &&& height_of(n.right) <= height_of(n.left) + 1
}

/// Every node of the subtree has accurate cached fields and is AVL-balanced.
spec fn wf<V>(node: Option<Box<Node<V>>>) -> bool
    decreases node,
{
    match node {
        None => true,
        Some(b) => wf(b.left) && wf(b.right) && refreshed(*b) && node_balanced(*b),
    }
}

proof fn lemma_size_is_len<V>(node: Option<Box<Node<V>>>)
    ensures
        seq_of(node).len() == size_of(node),
    decreases node,
{
    match node {
        None => {},
        Some(b) => {
            lemma_size_is_len(b.left);
            lemma_size_is_len(b.right);
        },
    }
}

proof fn lemma_height_le_size<V>(node: Option<Box<Node<V>>>)
    ensures
        height_of(node) <= size_of(node),
    decreases node,
{
    match node {
        None => {},
        Some(b) => {
            lemma_height_le_size(b.left);
            lemma_height_le_size(b.right);
        },
    }
}

/// Reads the cached size of an optional subtree.
fn sub_len<V>(node: &Option<Box<Node<V>>>) -> (r: usize)
    requires
        wf(*node),
    ensures
        r == size_of(*node),
{
    match node {
        None => 0,
        Some(b) => b.len,
    }
}

/// Reads the cached height of an optional subtree.
fn sub_height<V>(node: &Option<Box<Node<V>>>) -> (r: usize)
    requires
        wf(*node),
    ensures
        r == height_of(*node),
{
    match node {
        None => 0,
        Some(b) => b.height,
    }
}

/// Recomputes the cached size and height of a node from its current children.
/// Must be called after any change to `left` or `right`.
fn refresh<V>(n: &mut Node<V>)
    requires
        wf(old(n).left),
        wf(old(n).right),
        size_of(old(n).left) + size_of(old(n).right) + 1 <= usize::MAX,
    ensures
        final(n).value == old(n).value,
        final(n).left == old(n).left,
        final(n).right == old(n).right,
        refreshed(*final(n)),
{
    proof {
        lemma_height_le_size(n.left);
        lemma_height_le_size(n.right);
    }
    let ll = sub_len(&n.left);
    let rl = sub_len(&n.right);
    n.len = ll + rl + 1;
    let lh = sub_height(&n.left);
    let rh = sub_height(&n.right);
    n.height = if lh >= rh {
        lh + 1
    } else {
        rh + 1
    };
}

/// Rotates a subtree to the right: the old left child becomes the new root,
/// the old root is demoted to its right child.  The in-order sequence is
/// unchanged.  The caller must ensure that the demoted root ends up balanced;
/// the contract exposes the exact resulting shape so that `balance` can
/// reason about the heights.
fn rotate_right<V>(x: Box<Node<V>>) -> (r: Box<Node<V>>)
    requires
        x.left is Some,
        wf(x.left.unwrap().left),
        wf(x.left.unwrap().right),
        refreshed(*x.left.unwrap()),
        wf(x.right),
        height_of(x.left.unwrap().right) <= height_of(x.right) + 1,
        height_of(x.right) <= height_of(x.left.unwrap().right) + 1,
        size_of(x.left) + size_of(x.right) + 1 <= usize::MAX,
    ensures
        r.value == x.left.unwrap().value,
        r.left == x.left.unwrap().left,
        r.right is Some,
        r.right.unwrap().value == x.value,
        r.right.unwrap().left == x.left.unwrap().right,
        r.right.unwrap().right == x.right,
        refreshed(*r.right.unwrap()),
        refreshed(*r),
        seq_of(Some(r)) == seq_of(Some(x)),
        size_of(Some(r)) == size_of(Some(x)),
{
    let mut x = x;
    let ghost x0 = x;
    let mut y: Box<Node<V>> = x.left.take().unwrap();
    x.left = y.right.take();
    refresh(&mut *x);
    y.right = Some(x);
    refresh(&mut *y);
    proof {
        reveal_with_fuel(seq_of, 3);
        assert(seq_of(Some(y)) =~= seq_of(Some(x0)));
        lemma_size_is_len(Some(y));
        lemma_size_is_len(Some(x0));
    }
    y
}

/// Rotates a subtree to the left: the mirror image of `rotate_right`.
fn rotate_left<V>(x: Box<Node<V>>) -> (r: Box<Node<V>>)
    requires
        x.right is Some,
        wf(x.right.unwrap().left),
        wf(x.right.unwrap().right),
        refreshed(*x.right.unwrap()),
        wf(x.left),
        height_of(x.right.unwrap().left) <= height_of(x.left) + 1,
        height_of(x.left) <= height_of(x.right.unwrap().left) + 1,
        size_of(x.left) + size_of(x.right) + 1 <= usize::MAX,
    ensures
        r.value == x.right.unwrap().value,
        r.right == x.right.unwrap().right,
        r.left is Some,
        r.left.unwrap().value == x.value,
        r.left.unwrap().right == x.right.unwrap().left,
        r.left.unwrap().left == x.left,
        refreshed(*r.left.unwrap()),
        refreshed(*r),
        seq_of(Some(r)) == seq_of(Some(x)),
        size_of(Some(r)) == size_of(Some(x)),
{
    let mut x = x;
    let ghost x0 = x;
    let mut y: Box<Node<V>> = x.right.take().unwrap();
    x.right = y.left.take();
    refresh(&mut *x);
    y.left = Some(x);
    refresh(&mut *y);
    proof {
        reveal_with_fuel(seq_of, 3);
        assert(seq_of(Some(y)) =~= seq_of(Some(x0)));
        lemma_size_is_len(Some(y));
        lemma_size_is_len(Some(x0));
    }
    y
}

/// The children of the root, if any, satisfy the AVL invariant on their own
/// and their heights differ by at most 2: exactly the state `balance` mends.
spec fn pre_balance<V>(root: Option<Box<Node<V>>>) -> bool {
    match root {
        None => true,
        Some(b) => {
            &&& wf(b.left)
            &&& wf(b.right)
            &&& height_of(b.left) <= height_of(b.right) + 2
            &&& height_of(b.right) <= height_of(b.left) + 2
        },
    }
}

/// The larger of the heights of the root's children.
spec fn child_hmax<V>(root: Option<Box<Node<V>>>) -> nat {
    match root {
        None => 0,
        Some(b) => max_nat(height_of(b.left), height_of(b.right)),
    }
}

/// Restores the AVL invariant at the root of a subtree whose children
/// already satisfy it, by at most a double rotation; refreshes the cached
/// fields either way.  The in-order sequence is unchanged and the resulting
/// height is `1 + child_hmax` or, after a rotation, possibly one less.
/// Mends a root whose left subtree is exactly 2 taller than its right one:
/// a single or double rotation, as §4.2 of the balance rules requires.
#[verifier::spinoff_prover]
#[verifier::rlimit(100)]
fn balance_left_heavy<V>(b: Box<Node<V>>) -> (r: Box<Node<V>>)
    requires
        wf(b.left),
        wf(b.right),
        height_of(b.left) == height_of(b.right) + 2,
        size_of(b.left) + size_of(b.right) + 1 <= usize::MAX,
    ensures
        wf(Some(r)),
        seq_of(Some(r)) == seq_of(Some(b)),
        height_of(b.left) <= height_of(Some(r)) <= height_of(b.left) + 1,
{
    let mut b = b;
    let ghost b0 = b;
    let mut l = b.left.take().unwrap();
    let ghost l0 = l;
    proof {
        reveal_with_fuel(wf, 2);
        reveal_with_fuel(size_of, 2);
        assert(wf(l0.left) && wf(l0.right) && refreshed(*l0) && node_balanced(*l0));
    }
    let llh = sub_height(&l.left);
    let lrh = sub_height(&l.right);
    if llh < lrh {
        // The left child leans right: rotate it left first (double rotation).
        proof {
            reveal_with_fuel(wf, 2);
            assert(refreshed(*l0.right.unwrap()) && node_balanced(*l0.right.unwrap()));
        }
        l = rotate_left(l);
        proof {
            assert(wf(l.left)) by {
                reveal_with_fuel(wf, 2);
            }
        }
    }
    b.left = Some(l);
    let res = rotate_right(b);
    proof {
        assert(wf(res.right) && node_balanced(*res)) by {
            reveal_with_fuel(wf, 2);
        }
        assert(wf(Some(res))) by {
            reveal_with_fuel(wf, 2);
        }
        assert(seq_of(Some(res)) == seq_of(Some(b0))) by {
            reveal_with_fuel(seq_of, 2);
        }
    }
    res
}

/// Mends a root whose right subtree is exactly 2 taller than its left one:
/// the mirror image of `balance_left_heavy`.
#[verifier::spinoff_prover]
#[verifier::rlimit(100)]
fn balance_right_heavy<V>(b: Box<Node<V>>) -> (r: Box<Node<V>>)
    requires
        wf(b.left),
        wf(b.right),
        height_of(b.right) == height_of(b.left) + 2,
        size_of(b.left) + size_of(b.right) + 1 <= usize::MAX,
    ensures
        wf(Some(r)),
        seq_of(Some(r)) == seq_of(Some(b)),
        height_of(b.right) <= height_of(Some(r)) <= height_of(b.right) + 1,
{
    let mut b = b;
    let ghost b0 = b;
    let mut rsub = b.right.take().unwrap();
    let ghost r0 = rsub;
    proof {
        reveal_with_fuel(wf, 2);
        reveal_with_fuel(size_of, 2);
        assert(wf(r0.left) && wf(r0.right) && refreshed(*r0) && node_balanced(*r0));
    }
    let rlh = sub_height(&rsub.left);
    let rrh = sub_height(&rsub.right);
    if rlh > rrh {
        // The right child leans left: rotate it right first (double rotation).
        proof {
            reveal_with_fuel(wf, 2);
            assert(refreshed(*r0.left.unwrap()) && node_balanced(*r0.left.unwrap()));
        }
        rsub = rotate_right(rsub);
        proof {
            assert(wf(rsub.right)) by {
                reveal_with_fuel(wf, 2);
            }
        }
    }
    b.right = Some(rsub);
    let res = rotate_left(b);
    proof {
        assert(wf(res.left) && node_balanced(*res)) by {
            reveal_with_fuel(wf, 2);
        }
        assert(wf(Some(res))) by {
            reveal_with_fuel(wf, 2);
        }
        assert(seq_of(Some(res)) == seq_of(Some(b0))) by {
            reveal_with_fuel(seq_of, 2);
        }
    }
    res
}

/// Restores the AVL invariant at the root of a subtree whose children
/// already satisfy it, by at most a double rotation; refreshes the cached
/// fields either way.  The in-order sequence is unchanged and the resulting
/// height is `1 + child_hmax` or, after a rotation, possibly one less.
#[verifier::rlimit(100)]
fn balance<V>(root: Option<Box<Node<V>>>) -> (r: Option<Box<Node<V>>>)
    requires
        pre_balance(root),
        size_of(root) <= usize::MAX,
    ensures
        wf(r),
        seq_of(r) == seq_of(root),
        root is None ==> r is None,
        root is Some ==> child_hmax(root) <= height_of(r) <= 1 + child_hmax(root),
        root is Some && node_balanced(*root.unwrap()) ==> height_of(r) == 1 + child_hmax(root),
{
    match root {
        None => None,
        Some(mut b) => {
            let ghost b0 = b;
            proof {
                reveal_with_fuel(size_of, 2);
                lemma_height_le_size(b.left);
                lemma_height_le_size(b.right);
            }
            let lh = sub_height(&b.left);
            let rh = sub_height(&b.right);
            if lh > rh && lh - rh > 1 {
                // The left subtree is too tall (by exactly 2).
                let res = balance_left_heavy(b);
                Some(res)
            } else if rh > lh && rh - lh > 1 {
                // The right subtree is too tall: the mirror image.
                let res = balance_right_heavy(b);
                Some(res)
            } else {
                refresh(&mut *b);
                proof {
                    assert(wf(Some(b))) by {
                        reveal_with_fuel(wf, 2);
                    }
                    assert(seq_of(Some(b)) == seq_of(Some(b0))) by {
                        reveal_with_fuel(seq_of, 2);
                    }
                }
                Some(b)
            }
        },
    }
}

spec fn abs_diff(a: nat, b: nat) -> nat {
    if a >= b {
        (a - b) as nat
    } else {
        (b - a) as nat
    }
}

/// Attaches `left` and `right` as the subtrees of `root` — a detached node
/// with no children — while keeping the AVL invariant, even though the two
/// sides may differ arbitrarily in height: the code descends into the taller
/// side until the heights come within 1 of each other, then rebalances on the
/// way out.  The resulting height is `max` or `max + 1` of the input heights.
#[verifier::spinoff_prover]
#[verifier::rlimit(100)]
fn merge_with_root<V>(
    left: Option<Box<Node<V>>>,
    root: Box<Node<V>>,
    right: Option<Box<Node<V>>>,
) -> (r: Box<Node<V>>)
    requires
        wf(left),
        wf(right),
        root.left is None,
        root.right is None,
        size_of(left) + size_of(right) + 1 <= usize::MAX,
    ensures
        wf(Some(r)),
        seq_of(Some(r)) == seq_of(left).push(root.value) + seq_of(right),
        max_nat(height_of(left), height_of(right)) <= height_of(Some(r)) <= 1 + max_nat(
            height_of(left),
            height_of(right),
        ),
    decreases abs_diff(height_of(left), height_of(right)),
{
    let mut root = root;
    let lh = sub_height(&left);
    let rh = sub_height(&right);
    if (lh >= rh && lh - rh <= 1) || (rh >= lh && rh - lh <= 1) {
        // The two sides are already close in height: attach directly.
        root.left = left;
        root.right = right;
        refresh(&mut *root);
        proof {
            assert(wf(Some(root))) by {
                reveal_with_fuel(wf, 2);
            }
            assert(seq_of(Some(root)) =~= seq_of(left).push(root.value) + seq_of(right)) by {
                reveal_with_fuel(seq_of, 2);
            }
        }
        root
    } else if lh > rh {
        // The left side is taller by at least 2: descend into its right spine.
        let mut l = left.unwrap();
        let ghost l0 = l;
        let lr = l.right.take();
        proof {
            reveal_with_fuel(wf, 2);
            reveal_with_fuel(size_of, 2);
            assert(wf(lr) && wf(l0.left));
        }
        let sub = merge_with_root(lr, root, right);
        l.right = Some(sub);
        proof {
            lemma_size_is_len(l0.left);
            lemma_size_is_len(lr);
            lemma_size_is_len(Some(sub));
            lemma_size_is_len(right);
        }
        let res = balance(Some(l));
        proof {
            assert(seq_of(res) =~= seq_of(left).push(root.value) + seq_of(right)) by {
                reveal_with_fuel(seq_of, 2);
            }
            assert(res is Some) by {
                lemma_size_is_len(res);
            }
            assert(max_nat(height_of(left), height_of(right)) <= height_of(res) <= 1 + max_nat(
                height_of(left),
                height_of(right),
            ));
        }
        res.unwrap()
    } else {
        // The right side is taller by at least 2: the mirror image.
        let mut rt = right.unwrap();
        let ghost r0 = rt;
        let rl = rt.left.take();
        proof {
            reveal_with_fuel(wf, 2);
            reveal_with_fuel(size_of, 2);
            assert(wf(rl) && wf(r0.right));
        }
        let sub = merge_with_root(left, root, rl);
        rt.left = Some(sub);
        proof {
            lemma_size_is_len(r0.right);
            lemma_size_is_len(rl);
            lemma_size_is_len(Some(sub));
            lemma_size_is_len(left);
        }
        let res = balance(Some(rt));
        proof {
            assert(seq_of(res) =~= seq_of(left).push(root.value) + seq_of(right)) by {
                reveal_with_fuel(seq_of, 2);
            }
            assert(res is Some) by {
                lemma_size_is_len(res);
            }
            assert(max_nat(height_of(left), height_of(right)) <= height_of(res) <= 1 + max_nat(
                height_of(left),
                height_of(right),
            ));
        }
        res.unwrap()
    }
}

/// Detaches the rightmost node of a subtree, rebalancing on the way back up.
/// The detached node comes back with both children cleared, ready to serve as
/// a separating root for `merge_with_root`.
#[verifier::spinoff_prover]
#[verifier::rlimit(100)]
fn remove_max<V>(node: Box<Node<V>>) -> (res: (Option<Box<Node<V>>>, Box<Node<V>>))
    requires
        wf(Some(node)),
    ensures
        ({
            let (rest, m) = res;
            &&& wf(rest)
            &&& m.left is None
            &&& m.right is None
            &&& seq_of(Some(node)) == seq_of(rest).push(m.value)
            &&& height_of(Some(node)) <= height_of(rest) + 1
            &&& height_of(rest) <= height_of(Some(node))
        }),
    decreases size_of(Some(node)),
{
    let mut node = node;
    let ghost n0 = node;
    if node.right.is_some() {
        let r = node.right.take().unwrap();
        proof {
            reveal_with_fuel(size_of, 2);
        }
        let (rest_r, m) = remove_max(r);
        node.right = rest_r;
        proof {
            lemma_size_is_len(n0.left);
            lemma_size_is_len(n0.right);
            lemma_size_is_len(rest_r);
        }
        let nr = balance(Some(node));
        proof {
            assert(seq_of(Some(n0)) =~= seq_of(nr).push(m.value)) by {
                reveal_with_fuel(seq_of, 2);
            }
            assert(height_of(Some(n0)) <= height_of(nr) + 1 && height_of(nr) <= height_of(
                Some(n0),
            ));
        }
        (nr, m)
    } else {
        let rest = node.left.take();
        proof {
            assert(seq_of(Some(n0)) =~= seq_of(rest).push(n0.value)) by {
                reveal_with_fuel(seq_of, 2);
            }
        }
        (rest, node)
    }
}

/// Merges two independent subtrees, the left one's elements coming first.
/// If both are non-empty, the rightmost node of the left side is detached to
/// serve as the separating root for `merge_with_root`.
fn merge<V>(left: Option<Box<Node<V>>>, right: Option<Box<Node<V>>>) -> (r: Option<Box<Node<V>>>)
    requires
        wf(left),
        wf(right),
        size_of(left) + size_of(right) <= usize::MAX,
    ensures
        wf(r),
        seq_of(r) == seq_of(left) + seq_of(right),
{
    if left.is_none() {
        proof {
            assert(seq_of(left) + seq_of(right) =~= seq_of(right));
        }
        right
    } else if right.is_none() {
        proof {
            assert(seq_of(left) + seq_of(right) =~= seq_of(left));
        }
        left
    } else {
        let (rest, m) = remove_max(left.unwrap());
        proof {
            lemma_size_is_len(left);
            lemma_size_is_len(rest);
        }
        let res = merge_with_root(rest, m, right);
        proof {
            assert(seq_of(Some(res)) =~= seq_of(left) + seq_of(right));
        }
        Some(res)
    }
}

/// How a concatenation `l + [v] + r` falls apart when cut at position `i`.
proof fn lemma_concat_parts<V>(l: Seq<V>, v: V, r: Seq<V>, i: int)
    requires
        0 <= i <= l.len() + 1 + r.len(),
    ensures
        i < l.len() ==> (l.push(v) + r).take(i) == l.take(i),
        i < l.len() ==> (l.push(v) + r).skip(i) == l.skip(i).push(v) + r,
        i == l.len() ==> (l.push(v) + r).take(i) == l,
        i == l.len() ==> (l.push(v) + r).skip(i) == Seq::empty().push(v) + r,
        i > l.len() ==> (l.push(v) + r).take(i) == l.push(v) + r.take(i - l.len() - 1),
        i > l.len() ==> (l.push(v) + r).skip(i) == r.skip(i - l.len() - 1),
{
    if i < l.len() {
        assert((l.push(v) + r).take(i) =~= l.take(i));
        assert((l.push(v) + r).skip(i) =~= l.skip(i).push(v) + r);
    } else if i == l.len() {
        assert((l.push(v) + r).take(i) =~= l);
        assert((l.push(v) + r).skip(i) =~= Seq::empty().push(v) + r);
    } else {
        assert((l.push(v) + r).take(i) =~= l.push(v) + r.take(i - l.len() - 1));
        assert((l.push(v) + r).skip(i) =~= r.skip(i - l.len() - 1));
    }
}

/// Splits a subtree at `index`: the first result holds the first `index`
/// elements in order, the second the rest.  Both results satisfy the AVL
/// invariant.  The recursion descends one side per level and stitches the
/// detached pieces back together with `merge_with_root`.
#[verifier::spinoff_prover]
#[verifier::rlimit(100)]
fn split<V>(node: Option<Box<Node<V>>>, index: usize) -> (res: (
    Option<Box<Node<V>>>,
    Option<Box<Node<V>>>,
))
    requires
        wf(node),
        index <= size_of(node),
    ensures
        ({
            let (a, b) = res;
            &&& wf(a)
            &&& wf(b)
            &&& seq_of(a) == seq_of(node).take(index as int)
            &&& seq_of(b) == seq_of(node).skip(index as int)
        }),
    decreases size_of(node),
{
    match node {
        None => (None, None),
        Some(mut b) => {
            let ghost b0 = b;
            proof {
                reveal_with_fuel(size_of, 2);
                lemma_size_is_len(b0.left);
                lemma_size_is_len(b0.right);
                lemma_size_is_len(node);
                lemma_concat_parts(seq_of(b0.left), b0.value, seq_of(b0.right), index as int);
            }
            let left = b.left.take();
            let right = b.right.take();
            let left_len = sub_len(&left);
            if index < left_len {
                let (x, y) = split(left, index);
                proof {
                    lemma_size_is_len(y);
                }
                let m = merge_with_root(y, b, right);
                (x, Some(m))
            } else if index > left_len {
                let (x, y) = split(right, index - left_len - 1);
                proof {
                    lemma_size_is_len(x);
                }
                let m = merge_with_root(left, b, x);
                (Some(m), y)
            } else {
                let m = merge_with_root(None, b, right);
                (left, Some(m))
            }
        },
    }
}

/// Order-statistics lookup: descends on the cached subtree sizes to the
/// element at `index`, without touching the tree.
fn get_in<'a, V>(node: &'a Option<Box<Node<V>>>, index: usize) -> (r: Option<&'a V>)
    requires
        wf(*node),
    ensures
        index < seq_of(*node).len() ==> r is Some && *r.unwrap() == seq_of(*node)[index as int],
        index >= seq_of(*node).len() ==> r is None,
    decreases size_of(*node),
{
    match node {
        None => None,
        Some(b) => {
            proof {
                reveal_with_fuel(size_of, 2);
                lemma_size_is_len(b.left);
                lemma_size_is_len(b.right);
                lemma_size_is_len(*node);
            }
            let ll = sub_len(&b.left);
            if index < ll {
                get_in(&b.left, index)
            } else if index > ll {
                get_in(&b.right, index - ll - 1)
            } else {
                Some(&b.value)
            }
        },
    }
}

/// A sequence container backed by a height-balanced (AVL) binary tree,
/// with logarithmic positional access, insertion, removal, split and merge.
pub struct AvlTreeVec<V> {
    root: Option<Box<Node<V>>>,
}

impl<V> View for AvlTreeVec<V> {
    type V = Seq<V>;

    closed spec fn view(&self) -> Seq<V> {
        seq_of(self.root)
    }
}

impl<V> AvlTreeVec<V> {
    /// The structural invariant: every node's cached size and height are
    /// accurate and the heights of each node's children differ by at most 1.
    pub closed spec fn well_formed(self) -> bool {
        wf(self.root)
    }

    /// The height of the backing tree (0 for the empty sequence).
    pub closed spec fn height_spec(self) -> nat {
        height_of(self.root)
    }

    /// Creates an empty sequence.
    pub fn new() -> (s: Self)
        ensures
            s.well_formed(),
            s@ == Seq::<V>::empty(),
    {
        AvlTreeVec { root: None }
    }

    /// Removes every element.
    pub fn clear(&mut self)
        ensures
            final(self).well_formed(),
            final(self)@ == Seq::<V>::empty(),
    {
        self.root = None;
    }

    /// The number of elements, read from the root's cached size.
    pub fn len(&self) -> (n: usize)
        requires
            self.well_formed(),
        ensures
            n == self@.len(),
    {
        proof {
            lemma_size_is_len(self.root);
        }
        sub_len(&self.root)
    }

    /// Whether the sequence holds no elements.
    pub fn is_empty(&self) -> (r: bool)
        requires
            self.well_formed(),
        ensures
            r == (self@.len() == 0),
    {
        self.len() == 0
    }

    /// The element at `index`, or `None` exactly when `index` is past the end.
    pub fn get(&self, index: usize) -> (r: Option<&V>)
        requires
            self.well_formed(),
        ensures
            index < self@.len() ==> r is Some && *r.unwrap() == self@[index as int],
            index >= self@.len() ==> r is None,
    {
        get_in(&self.root, index)
    }

    /// The element at `index`, for callers that have already guaranteed the
    /// index is in range.
    pub fn index(&self, index: usize) -> (r: &V)
        requires
            self.well_formed(),
            index < self@.len(),
        ensures
            *r == self@[index as int],
    {
        get_in(&self.root, index).unwrap()
    }

    /// The first element, or `None` exactly when the sequence is empty.
    pub fn front(&self) -> (r: Option<&V>)
        requires
            self.well_formed(),
        ensures
            self@.len() > 0 ==> r is Some && *r.unwrap() == self@.first(),
            self@.len() == 0 ==> r is None,
    {
        get_in(&self.root, 0)
    }

    /// The last element, or `None` exactly when the sequence is empty.
    pub fn back(&self) -> (r: Option<&V>)
        requires
            self.well_formed(),
        ensures
            self@.len() > 0 ==> r is Some && *r.unwrap() == self@.last(),
            self@.len() == 0 ==> r is None,
    {
        let n = self.len();
        if n == 0 {
            None
        } else {
            get_in(&self.root, n - 1)
        }
    }

    /// Inserts `value` so that it becomes the element at `index`: the tree is
    /// split at the position and merged back around a fresh node.
    pub fn insert(&mut self, index: usize, value: V)
        requires
            old(self).well_formed(),
            index <= old(self)@.len(),
            old(self)@.len() < usize::MAX,
        ensures
            final(self).well_formed(),
            final(self)@ == old(self)@.insert(index as int, value),
    {
        proof {
            lemma_size_is_len(self.root);
        }
        let root = self.root.take();
        let (left, right) = split(root, index);
        proof {
            lemma_size_is_len(left);
            lemma_size_is_len(right);
        }
        let node = Box::new(Node { value, len: 1, height: 1, left: None, right: None });
        let merged = merge_with_root(left, node, right);
        self.root = Some(merged);
        proof {
            assert(seq_of(self.root) =~= old(self)@.insert(index as int, value));
        }
    }

    /// Removes and returns the element at `index`; `None` exactly when
    /// `index` is past the end, in which case nothing changes.  The target is
    /// isolated by two splits and the outer parts are merged back together.
    pub fn remove(&mut self, index: usize) -> (r: Option<V>)
        requires
            old(self).well_formed(),
        ensures
            final(self).well_formed(),
            index < old(self)@.len() ==> r == Some(old(self)@[index as int]) && final(self)@
                == old(self)@.remove(index as int),
            index >= old(self)@.len() ==> r is None && final(self)@ == old(self)@,
    {
        proof {
            lemma_size_is_len(self.root);
        }
        let n = self.len();
        if index < n {
            let root = self.root.take();
            let (left, right) = split(root, index);
            proof {
                lemma_size_is_len(left);
                lemma_size_is_len(right);
            }
            let (target, rest) = split(right, 1);
            proof {
                lemma_size_is_len(target);
                lemma_size_is_len(rest);
                assert(target is Some);
            }
            let tbox = target.unwrap();
            let merged = merge(left, rest);
            self.root = merged;
            let Node { value, len: _tlen, height: _theight, left: _tleft, right: _tright } =
                *tbox;
            proof {
                assert(seq_of(Some(tbox))[0] == old(self)@[index as int]);
                assert(value == old(self)@[index as int]);
                assert(seq_of(self.root) =~= old(self)@.remove(index as int));
            }
            Some(value)
        } else {
            None
        }
    }

    /// Inserts `value` in front of the first element.
    pub fn push_front(&mut self, value: V)
        requires
            old(self).well_formed(),
            old(self)@.len() < usize::MAX,
        ensures
            final(self).well_formed(),
            final(self)@ == old(self)@.insert(0, value),
    {
        self.insert(0, value);
    }

    /// Appends `value` after the last element.
    pub fn push_back(&mut self, value: V)
        requires
            old(self).well_formed(),
            old(self)@.len() < usize::MAX,
        ensures
            final(self).well_formed(),
            final(self)@ == old(self)@.push(value),
    {
        let n = self.len();
        self.insert(n, value);
        proof {
            assert(old(self)@.insert(old(self)@.len() as int, value) =~= old(self)@.push(value));
        }
    }

    /// Removes and returns the first element; `None` exactly when empty.
    pub fn pop_front(&mut self) -> (r: Option<V>)
        requires
            old(self).well_formed(),
        ensures
            final(self).well_formed(),
            old(self)@.len() > 0 ==> r == Some(old(self)@.first()) && final(self)@ == old(self)@.drop_first(),
            old(self)@.len() == 0 ==> r is None && final(self)@ == old(self)@,
    {
        let r = self.remove(0);
        proof {
            if old(self)@.len() > 0 {
                assert(old(self)@.remove(0) =~= old(self)@.drop_first());
            }
        }
        r
    }

    /// Removes and returns the last element; `None` exactly when empty.
    pub fn pop_back(&mut self) -> (r: Option<V>)
        requires
            old(self).well_formed(),
        ensures
            final(self).well_formed(),
            old(self)@.len() > 0 ==> r == Some(old(self)@.last()) && final(self)@ == old(self)@.drop_last(),
            old(self)@.len() == 0 ==> r is None && final(self)@ == old(self)@,
    {
        let n = self.len();
        if n == 0 {
            None
        } else {
            let r = self.remove(n - 1);
            proof {
                assert(old(self)@.remove(old(self)@.len() - 1) =~= old(self)@.drop_last());
            }
            r
        }
    }

    /// Splits the sequence at `at`: `self` keeps the first `at` elements,
    /// the returned sequence holds the rest.
    pub fn split_off(&mut self, at: usize) -> (r: Self)
        requires
            old(self).well_formed(),
            at <= old(self)@.len(),
        ensures
            final(self).well_formed(),
            r.well_formed(),
            final(self)@ == old(self)@.take(at as int),
            r@ == old(self)@.skip(at as int),
    {
        proof {
            lemma_size_is_len(self.root);
        }
        let root = self.root.take();
        let (left, right) = split(root, at);
        self.root = left;
        AvlTreeVec { root: right }
    }

    /// Moves every element of `other` to the end of `self`, leaving `other`
    /// empty.  The two trees are merged in one pass along their spines.
    pub fn append(&mut self, other: &mut Self)
        requires
            old(self).well_formed(),
            old(other).well_formed(),
            old(self)@.len() + old(other)@.len() <= usize::MAX,
        ensures
            final(self).well_formed(),
            final(other).well_formed(),
            final(self)@ == old(self)@ + old(other)@,
            final(other)@ == Seq::<V>::empty(),
    {
        proof {
            lemma_size_is_len(self.root);
            lemma_size_is_len(other.root);
        }
        let a = self.root.take();
        let b = other.root.take();
        let merged = merge(a, b);
        self.root = merged;
    }

    /// The elements in order, as references: an in-order walk of the tree.
    pub fn iter(&self) -> (r: Vec<&V>)
        requires
            self.well_formed(),
        ensures
            derefs(r@) == self@,
    {
        let mut out: Vec<&V> = Vec::new();
        proof {
            assert(derefs(out@) =~= Seq::<V>::empty());
        }
        push_refs(&self.root, &mut out);
        proof {
            assert(derefs(out@) =~= self@);
        }
        out
    }

    /// A mutable borrow of the element at `index`, for callers that have
    /// already guaranteed the index is in range.  Writing through the borrow
    /// changes that element and nothing else.
    pub fn index_mut(&mut self, index: usize) -> (r: &mut V)
        requires
            old(self).well_formed(),
            index < old(self)@.len(),
        ensures
            final(self).well_formed(),
            *r == old(self)@[index as int],
            final(self)@ == old(self)@.update(index as int, *final(r)),
    {
        proof {
            lemma_size_is_len(self.root);
        }
        get_in_mut(&mut self.root, index)
    }

    /// A mutable borrow of the element at `index`, or `None` exactly when
    /// `index` is past the end.  Writing through the borrow changes that
    /// element and nothing else.
    pub fn get_mut(&mut self, index: usize) -> (r: Option<&mut V>)
        requires
            old(self).well_formed(),
        ensures
            final(self).well_formed(),
            index < old(self)@.len() ==> r is Some && *r.unwrap() == old(self)@[index as int]
                && final(self)@ == old(self)@.update(index as int, *final(r.unwrap())),
            index >= old(self)@.len() ==> r is None && final(self)@ == old(self)@,
    {
        proof {
            lemma_size_is_len(self.root);
        }
        let n = self.len();
        if index < n {
            Some(get_in_mut(&mut self.root, index))
        } else {
            None
        }
    }

    /// A mutable borrow of the first element; `None` exactly when empty.
    pub fn front_mut(&mut self) -> (r: Option<&mut V>)
        requires
            old(self).well_formed(),
        ensures
            final(self).well_formed(),
            old(self)@.len() > 0 ==> r is Some && *r.unwrap() == old(self)@.first()
                && final(self)@ == old(self)@.update(0, *final(r.unwrap())),
            old(self)@.len() == 0 ==> r is None && final(self)@ == old(self)@,
    {
        self.get_mut(0)
    }

    /// A mutable borrow of the last element; `None` exactly when empty.
    pub fn back_mut(&mut self) -> (r: Option<&mut V>)
        requires
            old(self).well_formed(),
        ensures
            final(self).well_formed(),
            old(self)@.len() > 0 ==> r is Some && *r.unwrap() == old(self)@.last()
                && final(self)@ == old(self)@.update(old(self)@.len() - 1, *final(r.unwrap())),
            old(self)@.len() == 0 ==> r is None && final(self)@ == old(self)@,
    {
        let n = self.len();
        if n == 0 {
            None
        } else {
            self.get_mut(n - 1)
        }
    }

    /// The height of the backing tree, 0 when empty: an observer for the
    /// logarithmic height bound.
    pub fn height(&self) -> (h: usize)
        requires
            self.well_formed(),
        ensures
            h == self.height_spec(),
    {
        sub_height(&self.root)
    }
}

/// Order-statistics lookup that hands back a mutable borrow of the element
/// at `index`.  Whatever the caller writes through the borrow, the tree keeps
/// its shape: only the element at `index` changes, and every cached size and
/// height stays accurate.
#[verifier::spinoff_prover]
#[verifier::rlimit(100)]
fn get_in_mut<'a, V>(node: &'a mut Option<Box<Node<V>>>, index: usize) -> (r: &'a mut V)
    requires
        wf(*old(node)),
        index < size_of(*old(node)),
    ensures
        wf(*final(node)),
        *r == seq_of(*old(node))[index as int],
        seq_of(*final(node)) == seq_of(*old(node)).update(index as int, *final(r)),
        size_of(*final(node)) == size_of(*old(node)),
        height_of(*final(node)) == height_of(*old(node)),
    decreases size_of(*old(node)),
{
    proof {
        reveal_with_fuel(size_of, 2);
        lemma_size_is_len(*node);
    }
    match node {
        None => unreached(),
        Some(b) => {
            let ghost lseq = seq_of(b.left);
            let ghost rseq = seq_of(b.right);
            let ghost v0 = b.value;
            proof {
                lemma_size_is_len(b.left);
                lemma_size_is_len(b.right);
            }
            let ll = sub_len(&b.left);
            if index < ll {
                proof {
                    assert forall|x: V|
                        (lseq.push(v0) + rseq).update(index as int, x) == lseq.update(
                            index as int,
                            x,
                        ).push(v0) + rseq by {
                        assert((lseq.push(v0) + rseq).update(index as int, x) =~= lseq.update(
                            index as int,
                            x,
                        ).push(v0) + rseq);
                    }
                }
                get_in_mut(&mut b.left, index)
            } else if index > ll {
                proof {
                    assert forall|x: V|
                        (lseq.push(v0) + rseq).update(index as int, x) == lseq.push(v0)
                            + rseq.update(index - ll - 1, x) by {
                        assert((lseq.push(v0) + rseq).update(index as int, x) =~= lseq.push(v0)
                            + rseq.update(index - ll - 1, x));
                    }
                }
                get_in_mut(&mut b.right, index - ll - 1)
            } else {
                proof {
                    assert forall|x: V|
                        (lseq.push(v0) + rseq).update(index as int, x) == lseq.push(x)
                            + rseq by {
                        assert((lseq.push(v0) + rseq).update(index as int, x) =~= lseq.push(x)
                            + rseq);
                    }
                }
                &mut b.value
            }
        },
    }
}

/// The values that a sequence of references points at.
pub open spec fn derefs<V>(s: Seq<&V>) -> Seq<V> {
    s.map_values(|x: &V| *x)
}

/// Pushes the elements of a subtree onto `out` in symmetric order.
fn push_refs<'a, V>(node: &'a Option<Box<Node<V>>>, out: &mut Vec<&'a V>)
    ensures
        derefs(final(out)@) == derefs(old(out)@) + seq_of(*node),
    decreases size_of(*node),
{
    match node {
        None => {
            proof {
                assert(derefs(out@) =~= derefs(out@) + seq_of(*node));
            }
        },
        Some(b) => {
            proof {
                reveal_with_fuel(size_of, 2);
            }
            let ghost a0 = out@;
            push_refs(&b.left, out);
            let ghost a1 = out@;
            out.push(&b.value);
            let ghost a2 = out@;
            push_refs(&b.right, out);
            proof {
                assert(seq_of(*node) == seq_of(b.left).push(b.value) + seq_of(b.right));
                assert(derefs(a2) =~= derefs(a1).push(b.value));
                assert(derefs(out@) =~= derefs(a0) + seq_of(*node));
            }
        },
    }
}


/// 2 to the `k`-th power.
pub open spec fn pow2(k: nat) -> nat
    decreases k,
{
    if k == 0 {
        1
    } else {
        2 * pow2((k - 1) as nat)
    }
}

proof fn lemma_pow2_mono(a: nat, b: nat)
    requires
        a <= b,
    ensures
        pow2(a) <= pow2(b),
    decreases b,
{
    if a < b {
        lemma_pow2_mono(a, (b - 1) as nat);
    }
}

proof fn lemma_node_height_bound<V>(node: Option<Box<Node<V>>>)
    requires
        wf(node),
    ensures
        pow2(height_of(node) / 2) <= size_of(node) + 1,
    decreases node,
{
    match node {
        None => {},
        Some(b) => {
            lemma_node_height_bound(b.left);
            lemma_node_height_bound(b.right);
            let h = height_of(node);
            if h >= 2 {
                assert(height_of(b.left) >= h - 2 && height_of(b.right) >= h - 2);
                lemma_pow2_mono(((h - 2) as nat) / 2, height_of(b.left) / 2);
                lemma_pow2_mono(((h - 2) as nat) / 2, height_of(b.right) / 2);
                assert(h / 2 == ((h - 2) as nat) / 2 + 1);
                assert(pow2(h / 2) == 2 * pow2(((h - 2) as nat) / 2));
            }
        },
    }
}

/// The AVL height bound: a well-formed tree of height `h` holds at least
/// `2^(h/2) - 1` elements, so the height is at most `2·log2(len + 1)` —
/// logarithmic in the length, as the balancing promises.
pub proof fn lemma_height_log_bound<V>(t: AvlTreeVec<V>)
    requires
        t.well_formed(),
    ensures
        pow2(t.height_spec() / 2) <= t@.len() + 1,
{
    lemma_node_height_bound(t.root);
    lemma_size_is_len(t.root);
}

/// The Fibonacci numbers.
pub open spec fn fib(k: nat) -> nat
    decreases k,
{
    if k == 0 {
        0
    } else if k == 1 {
        1
    } else {
        fib((k - 1) as nat) + fib((k - 2) as nat)
    }
}

proof fn lemma_fib_mono(a: nat, b: nat)
    requires
        a <= b,
    ensures
        fib(a) <= fib(b),
    decreases b,
{
    if a < b {
        lemma_fib_mono(a, (b - 1) as nat);
    }
}

proof fn lemma_node_fib_bound<V>(node: Option<Box<Node<V>>>)
    requires
        wf(node),
    ensures
        fib(height_of(node) + 2) <= size_of(node) + 1,
    decreases node,
{
    match node {
        None => {
            assert(fib(2) == 1) by {
                reveal_with_fuel(fib, 3);
            }
        },
        Some(b) => {
            lemma_node_fib_bound(b.left);
            lemma_node_fib_bound(b.right);
            let h = height_of(node);
            let hl = height_of(b.left);
            let hr = height_of(b.right);
            if hl >= hr {
                assert(hl == h - 1 && hr >= h - 2);
                lemma_fib_mono((h as nat), hr + 2);
            } else {
                assert(hr == h - 1 && hl >= h - 2);
                lemma_fib_mono((h as nat), hl + 2);
            }
            assert(fib(h + 2) == fib(h + 1) + fib((h) as nat));
        },
    }
}

/// The sharp AVL height bound: a well-formed tree of height `h` holds at
/// least `fib(h + 2) - 1` elements.  Since the Fibonacci numbers grow as
/// `φ^h`, the height is at most `log_φ(len + 1) ≈ 1.44·log2(len + 1)`.
pub proof fn lemma_height_fib_bound<V>(t: AvlTreeVec<V>)
    requires
        t.well_formed(),
    ensures
        fib(t.height_spec() + 2) <= t@.len() + 1,
{
    lemma_node_fib_bound(t.root);
    lemma_size_is_len(t.root);
}

/// The split/merge round trip: cutting any sequence at any valid position
/// and concatenating the two parts gives the original sequence back.  This is
/// what the contracts of `split_off` and `append` compose to: after
/// `r = s.split_off(k); s.append(&mut r)`, the view of `s` is unchanged.
pub proof fn lemma_split_merge_round_trip<V>(s: Seq<V>, k: int)
    requires
        0 <= k <= s.len(),
    ensures
        s.take(k) + s.skip(k) == s,
{
    assert(s.take(k) + s.skip(k) =~= s);
}

} // verus!
