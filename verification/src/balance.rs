//! Rotations, and the rebalancing of one node whose subtrees are in AVL
//! shape.

use crate::map::BSTMap;
use crate::model::{
    balance_of, height_set, rebalanced, rebalance_fits, turns_left, turns_right,
};
use crate::node::{balanced, bst, cached, entries, height, Node};
use crate::order::{key_order_is_total, lemma_lt_transitive, lemma_lt_trichotomy, lt};
use vstd::prelude::*;

verus! {

/// `i32::abs`: the absolute value, for every value that has one in `i32`.
pub assume_specification[ i32::abs ](x: i32) -> (r: i32)
    requires
        x > i32::MIN,
    ensures
        r == if x < 0 { -x } else { x as int },
;

/// The larger of two cached heights.
pub open spec fn taller(a: int, b: int) -> int {
    if a >= b {
        a
    } else {
        b
    }
}

/// The tree that a right rotation makes of `root`: the left child comes to
/// the top, `root` becomes its right child and takes over the left child's
/// former right subtree. Both heights are set anew, the lower node first.
pub open spec fn rotated_right<K, V>(root: Node<K, V>) -> Node<K, V>
    recommends
        root.left is Some,
{
    let top = root.left.unwrap();
    let lowered = Node {
        left: top.right,
        right: root.right,
        height: (1 + taller(cached(top.right), cached(root.right))) as i32,
        key: root.key,
        value: root.value,
    };
    Node {
        left: top.left,
        right: Some(Box::new(lowered)),
        height: (1 + taller(cached(top.left), lowered.height as int)) as i32,
        key: top.key,
        value: top.value,
    }
}

/// The mirror image of [`rotated_right`].
pub open spec fn rotated_left<K, V>(root: Node<K, V>) -> Node<K, V>
    recommends
        root.right is Some,
{
    let top = root.right.unwrap();
    let lowered = Node {
        left: root.left,
        right: top.left,
        height: (1 + taller(cached(root.left), cached(top.left))) as i32,
        key: root.key,
        value: root.value,
    };
    Node {
        left: Some(Box::new(lowered)),
        right: top.right,
        height: (1 + taller(lowered.height as int, cached(top.right))) as i32,
        key: top.key,
        value: top.value,
    }
}

/// A right rotation keeps the pairs and the search-tree order.
pub proof fn lemma_rotated_right_keeps_order<K: Ord, V>(root: Node<K, V>)
    requires
        key_order_is_total::<K>(),
        root.left is Some,
        bst(Some(Box::new(root))),
    ensures
        bst(Some(Box::new(rotated_right(root)))),
        entries(Some(Box::new(rotated_right(root)))) == entries(Some(Box::new(root))),
{
    let top = root.left.unwrap();
    let res = rotated_right(root);
    assert(res.key == top.key);
    assert(res.right is Some);
    let lowered = res.right.unwrap();
    assert(lowered.left == top.right);
    assert(bst(root.left));
    assert(entries(root.left).contains_key(top.key));
    assert(lt(top.key, root.key));
    lemma_lt_trichotomy(top.key, root.key);
    assert forall|k: K| #[trigger] entries(lowered.left).contains_key(k) implies lt(
        k,
        root.key,
    ) by {
        assert(entries(root.left).contains_key(k));
    }
    assert(bst(res.right));
    assert(entries(res.right) == entries(top.right).union_prefer_right(entries(root.right)).insert(
        root.key,
        root.value,
    ));
    assert(entries(root.left) == entries(top.left).union_prefer_right(entries(top.right)).insert(
        top.key,
        top.value,
    ));
    assert forall|k: K| #[trigger] entries(res.right).contains_key(k) implies lt(top.key, k) by {
        if entries(root.right).contains_key(k) {
            lemma_lt_transitive(top.key, root.key, k);
        } else if k != root.key {
            assert(entries(top.right).contains_key(k));
        }
    }
    assert(!entries(root.right).contains_key(top.key)) by {
        if entries(root.right).contains_key(top.key) {
            lemma_lt_trichotomy(top.key, root.key);
        }
    }
    assert(entries(Some(Box::new(res))) =~= entries(Some(Box::new(root))));
}

/// A left rotation keeps the pairs and the search-tree order.
pub proof fn lemma_rotated_left_keeps_order<K: Ord, V>(root: Node<K, V>)
    requires
        key_order_is_total::<K>(),
        root.right is Some,
        bst(Some(Box::new(root))),
    ensures
        bst(Some(Box::new(rotated_left(root)))),
        entries(Some(Box::new(rotated_left(root)))) == entries(Some(Box::new(root))),
{
    let top = root.right.unwrap();
    let res = rotated_left(root);
    assert(res.left is Some);
    let lowered = res.left.unwrap();
    assert(bst(root.right));
    assert(entries(root.right).contains_key(top.key));
    assert(lt(root.key, top.key));
    lemma_lt_trichotomy(top.key, root.key);
    assert forall|k: K| #[trigger] entries(lowered.right).contains_key(k) implies lt(
        root.key,
        k,
    ) by {
        assert(entries(root.right).contains_key(k));
    }
    assert(bst(res.left));
    assert(entries(res.left) == entries(root.left).union_prefer_right(entries(top.left)).insert(
        root.key,
        root.value,
    ));
    assert(entries(root.right) == entries(top.left).union_prefer_right(entries(top.right)).insert(
        top.key,
        top.value,
    ));
    assert forall|k: K| #[trigger] entries(res.left).contains_key(k) implies lt(k, top.key) by {
        if entries(root.left).contains_key(k) {
            lemma_lt_transitive(k, root.key, top.key);
        } else if k != root.key {
            assert(entries(top.left).contains_key(k));
        }
    }
    assert(!entries(root.left).contains_key(top.key)) by {
        if entries(root.left).contains_key(top.key) {
            lemma_lt_trichotomy(top.key, root.key);
        }
    }
    assert(entries(Some(Box::new(res))) =~= entries(Some(Box::new(root))));
}

/// What [`BSTMap::balance_subtree`] asks of the heights under `root`: both
/// subtrees are in AVL shape, their heights differ by at most two, and where
/// they differ by two the taller one leans to one side.
pub open spec fn nearly_balanced<K, V>(root: Node<K, V>) -> bool {
    &&& balanced(root.left)
    &&& balanced(root.right)
    &&& height(root.left) <= height(root.right) + 2
    &&& height(root.right) <= height(root.left) + 2
    &&& height(root.left) == height(root.right) + 2 ==> height(root.left.unwrap().left) != height(
        root.left.unwrap().right,
    )
    &&& height(root.right) == height(root.left) + 2 ==> height(root.right.unwrap().left) != height(
        root.right.unwrap().right,
    )
}

/// A right rotation about a node whose left subtree is two taller than the
/// right one and leans left gives a tree in AVL shape, one lower.
pub proof fn lemma_rotated_right_shape<K, V>(root: Node<K, V>)
    requires
        balanced(root.left),
        balanced(root.right),
        height(root.left) == height(root.right) + 2,
        height(root.left.unwrap().left) > height(root.left.unwrap().right),
        height(root.left) < i32::MAX,
    ensures
        balanced(Some(Box::new(rotated_right(root)))),
        height(Some(Box::new(rotated_right(root)))) == height(root.left),
{
    let top = root.left.unwrap();
    let res = rotated_right(root);
    assert(balanced(top.left));
    assert(balanced(top.right));
    assert(cached(top.left) == height(top.left));
    assert(cached(top.right) == height(top.right));
    assert(cached(root.right) == height(root.right));
    assert(res.right is Some);
    assert(balanced(res.right));
}

/// A left rotation about a node whose right subtree is two taller than the
/// left one and leans right gives a tree in AVL shape, one lower.
pub proof fn lemma_rotated_left_shape<K, V>(root: Node<K, V>)
    requires
        balanced(root.left),
        balanced(root.right),
        height(root.right) == height(root.left) + 2,
        height(root.right.unwrap().right) > height(root.right.unwrap().left),
        height(root.right) < i32::MAX,
    ensures
        balanced(Some(Box::new(rotated_left(root)))),
        height(Some(Box::new(rotated_left(root)))) == height(root.right),
{
    let top = root.right.unwrap();
    let res = rotated_left(root);
    assert(balanced(top.left));
    assert(balanced(top.right));
    assert(cached(top.left) == height(top.left));
    assert(cached(top.right) == height(top.right));
    assert(cached(root.left) == height(root.left));
    assert(res.left is Some);
    assert(balanced(res.left));
}

/// `root` with its left subtree rotated left.
pub open spec fn with_left_rotated<K, V>(root: Node<K, V>) -> Node<K, V>
    recommends
        root.left is Some,
        root.left.unwrap().right is Some,
{
    Node {
        left: Some(Box::new(rotated_left(*root.left.unwrap()))),
        right: root.right,
        height: root.height,
        key: root.key,
        value: root.value,
    }
}

/// `root` with its right subtree rotated right.
pub open spec fn with_right_rotated<K, V>(root: Node<K, V>) -> Node<K, V>
    recommends
        root.right is Some,
        root.right.unwrap().left is Some,
{
    Node {
        left: root.left,
        right: Some(Box::new(rotated_right(*root.right.unwrap()))),
        height: root.height,
        key: root.key,
        value: root.value,
    }
}

/// The double rotation for a left subtree that is two taller than the right
/// one and leans right: it gives a tree in AVL shape, one lower.
pub proof fn lemma_left_right_shape<K, V>(root: Node<K, V>)
    requires
        balanced(root.left),
        balanced(root.right),
        height(root.left) == height(root.right) + 2,
        height(root.left.unwrap().left) < height(root.left.unwrap().right),
        height(root.left) < i32::MAX,
    ensures
        root.left.unwrap().right is Some,
        balanced(Some(Box::new(rotated_right(with_left_rotated(root))))),
        height(Some(Box::new(rotated_right(with_left_rotated(root))))) == height(root.left),
{
    let l = root.left.unwrap();
    assert(balanced(l.left));
    assert(balanced(l.right));
    let x = l.right.unwrap();
    assert(balanced(x.left));
    assert(balanced(x.right));
    let mid = with_left_rotated(root);
    let m = mid.left.unwrap();
    assert(m.left is Some);
    let low_left = m.left.unwrap();
    assert(low_left.left == l.left && low_left.right == x.left);
    assert(balanced(m.left));
    let res = rotated_right(mid);
    assert(res.left == m.left);
    assert(res.right is Some);
    let low_right = res.right.unwrap();
    assert(low_right.left == x.right && low_right.right == root.right);
    assert(balanced(res.right));
}

/// The double rotation for a right subtree that is two taller than the left
/// one and leans left: it gives a tree in AVL shape, one lower.
pub proof fn lemma_right_left_shape<K, V>(root: Node<K, V>)
    requires
        balanced(root.left),
        balanced(root.right),
        height(root.right) == height(root.left) + 2,
        height(root.right.unwrap().right) < height(root.right.unwrap().left),
        height(root.right) < i32::MAX,
    ensures
        root.right.unwrap().left is Some,
        balanced(Some(Box::new(rotated_left(with_right_rotated(root))))),
        height(Some(Box::new(rotated_left(with_right_rotated(root))))) == height(root.right),
{
    let r = root.right.unwrap();
    assert(balanced(r.left));
    assert(balanced(r.right));
    let x = r.left.unwrap();
    assert(balanced(x.left));
    assert(balanced(x.right));
    let mid = with_right_rotated(root);
    let m = mid.right.unwrap();
    assert(m.right is Some);
    let low_right = m.right.unwrap();
    assert(low_right.right == r.right && low_right.left == x.right);
    assert(balanced(m.right));
    let res = rotated_left(mid);
    assert(res.right == m.right);
    assert(res.left is Some);
    let low_left = res.left.unwrap();
    assert(low_left.right == x.left && low_left.left == root.left);
    assert(balanced(res.left));
}

/// Rotating the left subtree keeps the pairs and the search-tree order of
/// the whole.
pub proof fn lemma_with_left_rotated_keeps_order<K: Ord, V>(root: Node<K, V>)
    requires
        key_order_is_total::<K>(),
        root.left is Some,
        root.left.unwrap().right is Some,
        bst(Some(Box::new(root))),
    ensures
        bst(Some(Box::new(with_left_rotated(root)))),
        entries(Some(Box::new(with_left_rotated(root)))) == entries(Some(Box::new(root))),
{
    lemma_rotated_left_keeps_order(*root.left.unwrap());
}

/// Rotating the right subtree keeps the pairs and the search-tree order of
/// the whole.
pub proof fn lemma_with_right_rotated_keeps_order<K: Ord, V>(root: Node<K, V>)
    requires
        key_order_is_total::<K>(),
        root.right is Some,
        root.right.unwrap().left is Some,
        bst(Some(Box::new(root))),
    ensures
        bst(Some(Box::new(with_right_rotated(root)))),
        entries(Some(Box::new(with_right_rotated(root)))) == entries(Some(Box::new(root))),
{
    lemma_rotated_right_keeps_order(*root.right.unwrap());
}

/// Rebalancing a node whose subtrees are in AVL shape and differ in height
/// by at most two gives a tree in AVL shape with the same pairs, still in
/// search-tree order. It is one lower than before where a rotation took
/// place, and the node itself with its height set where none did.
pub proof fn lemma_rebalanced<K: Ord, V>(root: Node<K, V>)
    requires
        key_order_is_total::<K>(),
        bst(Some(Box::new(root))),
        nearly_balanced(root),
        height(Some(Box::new(root))) < i32::MAX,
    ensures
        balanced(Some(Box::new(rebalanced(root)))),
        bst(Some(Box::new(rebalanced(root)))),
        entries(Some(Box::new(rebalanced(root)))) == entries(Some(Box::new(root))),
        height(Some(Box::new(rebalanced(root)))) == if height(root.left) == height(root.right) + 2
            || height(root.right) == height(root.left) + 2 {
            height(Some(Box::new(root))) - 1
        } else {
            height(Some(Box::new(root))) as int
        },
        height(root.left) <= height(root.right) + 1 && height(root.right) <= height(root.left) + 1
            ==> rebalanced(root).left == root.left && rebalanced(root).right == root.right
            && rebalanced(root).key == root.key && rebalanced(root).value == root.value,
{
    let tall = height_set(root);
    assert(cached(root.left) == height(root.left));
    assert(cached(root.right) == height(root.right));
    assert(bst(Some(Box::new(tall))));
    assert(entries(Some(Box::new(tall))) == entries(Some(Box::new(root))));
    if -2 < balance_of(tall) < 2 {
        assert(balanced(Some(Box::new(tall))));
    } else if balance_of(tall) == -2 {
        let l = tall.left.unwrap();
        assert(balanced(l.left));
        assert(balanced(l.right));
        if balance_of(*l) < 0 {
            lemma_rotated_right_shape(tall);
            lemma_rotated_right_keeps_order(tall);
        } else {
            lemma_left_right_shape(tall);
            lemma_with_left_rotated_keeps_order(tall);
            lemma_rotated_right_keeps_order(with_left_rotated(tall));
        }
    } else {
        let r = tall.right.unwrap();
        assert(balanced(r.left));
        assert(balanced(r.right));
        if balance_of(*r) > 0 {
            lemma_rotated_left_shape(tall);
            lemma_rotated_left_keeps_order(tall);
        } else {
            lemma_right_left_shape(tall);
            lemma_with_right_rotated_keeps_order(tall);
            lemma_rotated_left_keeps_order(with_right_rotated(tall));
        }
    }
}

/// The taller of two heights.
pub open spec fn higher(a: nat, b: nat) -> nat {
    if a >= b {
        a
    } else {
        b
    }
}

/// The height of a subtree is one more than that of its taller child.
pub proof fn lemma_height_of<K, V>(n: Node<K, V>)
    ensures
        height(Some(Box::new(n))) == 1 + higher(height(n.left), height(n.right)),
{
}

/// A rotation makes a tree at most one higher, and so does a rotation within
/// a child followed by one about the node.
pub proof fn lemma_rotated_heights<K, V>(root: Node<K, V>)
    ensures
        root.left is Some ==> height(Some(Box::new(rotated_right(root)))) <= height(
            Some(Box::new(root)),
        ) + 1,
        root.right is Some ==> height(Some(Box::new(rotated_left(root)))) <= height(
            Some(Box::new(root)),
        ) + 1,
        root.left is Some && root.left.unwrap().right is Some ==> height(
            Some(Box::new(rotated_right(with_left_rotated(root)))),
        ) <= height(Some(Box::new(root))) + 1,
        root.right is Some && root.right.unwrap().left is Some ==> height(
            Some(Box::new(rotated_left(with_right_rotated(root)))),
        ) <= height(Some(Box::new(root))) + 1,
{
    lemma_height_of(root);
    if let Some(l) = root.left {
        lemma_height_of(*l);
        let res = rotated_right(root);
        lemma_height_of(res);
        lemma_height_of(*res.right.unwrap());
        if let Some(x) = l.right {
            lemma_height_of(*x);
            let mid = with_left_rotated(root);
            lemma_height_of(mid);
            lemma_height_of(*mid.left.unwrap());
            lemma_height_of(*mid.left.unwrap().left.unwrap());
            let res = rotated_right(mid);
            lemma_height_of(res);
            lemma_height_of(*res.right.unwrap());
            assert(res.left == mid.left.unwrap().left);
        }
    }
    if let Some(r) = root.right {
        lemma_height_of(*r);
        let res = rotated_left(root);
        lemma_height_of(res);
        lemma_height_of(*res.left.unwrap());
        if let Some(x) = r.left {
            lemma_height_of(*x);
            let mid = with_right_rotated(root);
            lemma_height_of(mid);
            lemma_height_of(*mid.right.unwrap());
            lemma_height_of(*mid.right.unwrap().right.unwrap());
            let res = rotated_left(mid);
            lemma_height_of(res);
            lemma_height_of(*res.left.unwrap());
            assert(res.right == mid.right.unwrap().right);
        }
    }
}

/// Rebalancing keeps the pairs and the search-tree order, whatever the
/// heights are.
pub proof fn lemma_rebalanced_keeps_order<K: Ord, V>(root: Node<K, V>)
    requires
        key_order_is_total::<K>(),
        bst(Some(Box::new(root))),
    ensures
        bst(Some(Box::new(rebalanced(root)))),
        entries(Some(Box::new(rebalanced(root)))) == entries(Some(Box::new(root))),
{
    let tall = height_set(root);
    assert(bst(Some(Box::new(tall))));
    assert(entries(Some(Box::new(tall))) == entries(Some(Box::new(root))));
    if -2 < balance_of(tall) < 2 {
    } else if balance_of(tall) == -2 {
        if tall.left is Some && balance_of(*tall.left.unwrap()) < 0 {
            lemma_rotated_right_keeps_order(tall);
        } else if tall.left is Some && tall.left.unwrap().right is Some {
            lemma_with_left_rotated_keeps_order(tall);
            lemma_rotated_right_keeps_order(with_left_rotated(tall));
        }
    } else {
        if tall.right is Some && balance_of(*tall.right.unwrap()) > 0 {
            lemma_rotated_left_keeps_order(tall);
        } else if tall.right is Some && tall.right.unwrap().left is Some {
            lemma_with_right_rotated_keeps_order(tall);
            lemma_rotated_left_keeps_order(with_right_rotated(tall));
        }
    }
}

impl<K: Ord, V> BSTMap<K, V> {
    /// Rotates right about `root`, which must have a left child, and returns
    /// the new root of the subtree.
    pub(crate) fn balance_rotate_right(mut root: Box<Node<K, V>>) -> (top: Box<Node<K, V>>)
        requires
            turns_right(*root),
        ensures
            *top == rotated_right(*root),
    {
        let mut left_child = root.left.take().unwrap();
        let right_child_of_left_child = left_child.right.take();

        root.left = right_child_of_left_child;
        root.update_height();

        left_child.right = Some(root);
        left_child.update_height();

        left_child
    }

    /// Rotates left about `root`, which must have a right child, and returns
    /// the new root of the subtree.
    pub(crate) fn balance_rotate_left(mut root: Box<Node<K, V>>) -> (top: Box<Node<K, V>>)
        requires
            turns_left(*root),
        ensures
            *top == rotated_left(*root),
    {
        let mut right_child = root.right.take().unwrap();
        let left_child_of_right_child = right_child.left.take();

        root.right = left_child_of_right_child;
        root.update_height();

        right_child.left = Some(root);
        right_child.update_height();

        right_child
    }

    /// Sets the height of `root` from the heights cached in its children
    /// and, where the balance factor then is not within one of zero, rotates.
    ///
    /// A balance factor of -2 rotates right about `root`, after rotating the
    /// left child left unless that child leans left; any other rotates left
    /// about `root`, after rotating the right child right unless that child
    /// leans right. A rotation is made only where the child that it brings
    /// to the top is there; where it is not, `root` comes back with its
    /// height set. Where the two subtrees are in AVL shape and differ in
    /// height by two, this restores the AVL shape ([`lemma_rebalanced`]).
    pub(crate) fn balance_subtree(mut root: Box<Node<K, V>>) -> (res: Box<Node<K, V>>)
        requires
            rebalance_fits(*root),
        ensures
            *res == rebalanced(*root),
            -2 < cached(root.right) - cached(root.left) < 2 ==> res.left == root.left && res.right
                == root.right && res.key == root.key && res.value == root.value && res.height == 1
                + taller(cached(root.left), cached(root.right)),
    {
        root.update_height();
        if root.balance().abs() < 2 {
            return root;
        }
        let ghost tall = *root;

        if root.balance() == -2 {
            if root.left.is_some() && root.left.as_ref().unwrap().balance() < 0 {
                // Case Left-Left
                root = Self::balance_rotate_right(root);
            } else if root.left.is_some() && root.left.as_ref().unwrap().right.is_some() {
                // Case Left-Right
                let left = root.left.take().unwrap();
                root.left = Some(Self::balance_rotate_left(left));
                assert(*root == with_left_rotated(tall));
                root = Self::balance_rotate_right(root);
            }
        } else if root.right.is_some() && root.right.as_ref().unwrap().balance() > 0 {
            // Case Right-Right
            root = Self::balance_rotate_left(root);
        } else if root.right.is_some() && root.right.as_ref().unwrap().left.is_some() {
            // Case Right-Left
            let right = root.right.take().unwrap();
            root.right = Some(Self::balance_rotate_right(right));
            assert(*root == with_right_rotated(tall));
            root = Self::balance_rotate_left(root);
        }

        root
    }
}

} // verus!
