//! The tree cell, and the mathematical readings of a subtree that the rest
//! of the library states its contracts and invariants with.

use crate::order::{key_order_is_total, lemma_lt_trichotomy, lt};
use vstd::set_lib::lemma_set_disjoint_lens;
use vstd::prelude::*;

verus! {

/// A subtree: absent, or one node that owns its two subtrees.
pub type NodeRef<K, V> = Option<Box<Node<K, V>>>;

/// One cell of the tree. It owns its children; `height` is the cached height
/// of the subtree that it roots (1 for a leaf).
pub struct Node<K, V> {
    pub left: NodeRef<K, V>,
    pub right: NodeRef<K, V>,
    pub height: i32,
    pub key: K,
    pub value: V,
}

/// The key-value pairs held in a subtree.
pub open spec fn entries<K, V>(t: NodeRef<K, V>) -> Map<K, V>
    decreases t,
{
    match t {
        None => Map::empty(),
        Some(n) => entries(n.left).union_prefer_right(entries(n.right)).insert(n.key, n.value),
    }
}

/// The number of nodes in a subtree.
pub open spec fn size<K, V>(t: NodeRef<K, V>) -> nat
    decreases t,
{
    match t {
        None => 0,
        Some(n) => 1 + size(n.left) + size(n.right),
    }
}

/// The number of nodes on the longest path from the root of a subtree down
/// to a leaf; 0 for the absent subtree.
pub open spec fn height<K, V>(t: NodeRef<K, V>) -> nat
    decreases t,
{
    match t {
        None => 0,
        Some(n) => if height(n.left) >= height(n.right) {
            1 + height(n.left)
        } else {
            1 + height(n.right)
        },
    }
}

/// The height that the root of a subtree has cached; 0 for the absent
/// subtree.
pub open spec fn cached<K, V>(t: NodeRef<K, V>) -> int {
    match t {
        None => 0,
        Some(n) => n.height as int,
    }
}

/// The pairs of a subtree from left to right.
pub open spec fn inorder<K, V>(t: NodeRef<K, V>) -> Seq<(K, V)>
    decreases t,
{
    match t {
        None => Seq::empty(),
        Some(n) => inorder(n.left).push((n.key, n.value)) + inorder(n.right),
    }
}

/// The search-tree order: at every node, each key of the left subtree sorts
/// before the node's key and each key of the right subtree after it.
pub open spec fn bst<K: Ord, V>(t: NodeRef<K, V>) -> bool
    decreases t,
{
    match t {
        None => true,
        Some(n) => {
            &&& bst(n.left)
            &&& bst(n.right)
            &&& forall|k: K| #[trigger] entries(n.left).contains_key(k) ==> lt(k, n.key)
            &&& forall|k: K| #[trigger] entries(n.right).contains_key(k) ==> lt(n.key, k)
        },
    }
}

/// The AVL shape: at every node the cached height is the subtree's height
/// and the heights of the two subtrees differ by at most one.
pub open spec fn balanced<K, V>(t: NodeRef<K, V>) -> bool
    decreases t,
{
    match t {
        None => true,
        Some(n) => {
            &&& balanced(n.left)
            &&& balanced(n.right)
            &&& n.height == height(t)
            &&& height(n.left) <= height(n.right) + 1
            &&& height(n.right) <= height(n.left) + 1
        },
    }
}

/// A subtree holds finitely many keys.
pub proof fn lemma_entries_finite<K, V>(t: NodeRef<K, V>)
    ensures
        entries(t).dom().finite(),
    decreases t,
{
    if let Some(n) = t {
        lemma_entries_finite(n.left);
        lemma_entries_finite(n.right);
        assert(entries(n.left).union_prefer_right(entries(n.right)).dom() =~= entries(n.left).dom()
            + entries(n.right).dom());
    }
}

/// In search-tree order no key occurs twice, so a subtree holds as many keys
/// as it has nodes.
pub proof fn lemma_size_is_len<K: Ord, V>(t: NodeRef<K, V>)
    requires
        key_order_is_total::<K>(),
        bst(t),
    ensures
        entries(t).dom().finite(),
        entries(t).len() == size(t),
    decreases t,
{
    lemma_entries_finite(t);
    if let Some(n) = t {
        lemma_size_is_len(n.left);
        lemma_size_is_len(n.right);
        let l = entries(n.left).dom();
        let r = entries(n.right).dom();
        assert(l.disjoint(r)) by {
            assert forall|k: K| l.contains(k) implies !r.contains(k) by {
                if r.contains(k) {
                    assert(entries(n.left).contains_key(k));
                    assert(entries(n.right).contains_key(k));
                    lemma_lt_trichotomy(k, n.key);
                }
            }
        }
        lemma_set_disjoint_lens(l, r);
        assert(entries(n.left).union_prefer_right(entries(n.right)).dom() =~= l + r);
        assert(!(l + r).contains(n.key)) by {
            if entries(n.left).contains_key(n.key) || entries(n.right).contains_key(n.key) {
                lemma_lt_trichotomy(n.key, n.key);
            }
        }
        assert(entries(t).dom() =~= (l + r).insert(n.key));
    }
}

impl<K: Ord, V> Node<K, V> {
    /// A leaf.
    pub fn new(key: K, value: V) -> (node: Self)
        ensures
            node.key == key,
            node.value == value,
            node.left is None,
            node.right is None,
            node.height == 1,
    {
        Self { left: None, right: None, height: 1, value, key }
    }

    /// The height cached in the left child; 0 where there is none.
    pub fn left_height(&self) -> (h: i32)
        ensures
            h == cached(self.left),
    {
        match &self.left {
            Some(node) => node.height,
            None => 0,
        }
    }

    /// The height cached in the right child; 0 where there is none.
    pub fn right_height(&self) -> (h: i32)
        ensures
            h == cached(self.right),
    {
        match &self.right {
            Some(node) => node.height,
            None => 0,
        }
    }

    /// The balance factor: cached height of the right child minus that of the
    /// left one.
    pub fn balance(&self) -> (b: i32)
        requires
            0 <= cached(self.left),
            0 <= cached(self.right),
        ensures
            b == cached(self.right) - cached(self.left),
    {
        self.right_height() - self.left_height()
    }

    /// Sets the cached height from the heights cached in the two children.
    pub fn update_height(&mut self)
        requires
            0 <= cached(old(self).left) < i32::MAX,
            0 <= cached(old(self).right) < i32::MAX,
        ensures
            final(self).height == 1 + if cached(old(self).left) >= cached(old(self).right) {
                cached(old(self).left)
            } else {
                cached(old(self).right)
            },
            final(self).left == old(self).left,
            final(self).right == old(self).right,
            final(self).key == old(self).key,
            final(self).value == old(self).value,
    {
        self.height = 1 + self.left_height().max(self.right_height())
    }
}

} // verus!
