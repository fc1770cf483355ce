//! The map itself: the root of the tree and the number of its nodes.

use crate::forest::{
    as_forest, forest_size, lemma_forest_size_concat, lemma_forest_size_one, level_order,
};
use crate::iter::{
    BSTMapByrefBreadthfirstIter, BSTMapByrefInorderIter, BSTMapConsumingInorderIter,
};
use crate::iter_mut::{eventual_rest, kept_all, sides, BSTMapByrefInorderIterMut};
use crate::model::{heights_are_heights, leaves_room, reshaped};
use crate::node::{balanced, bst, entries, Node, NodeRef};
use std::collections::VecDeque;
use vstd::prelude::*;

verus! {

/// An ordered map, kept as an AVL tree.
///
/// `clear` releases the nodes one by one, from a queue. The type has no
/// `Drop` of its own, because a `Drop` must not unwind and the queue's
/// operations may: a map that goes out of scope with nodes in it releases
/// them by recursion, as deep as the tree is high. Call `clear` first where
/// that matters.
pub struct BSTMap<K: Ord, V> {
    pub(crate) head: NodeRef<K, V>,
    pub(crate) length: usize,
}

/// The nodes that a queue of boxes holds.
pub open spec fn boxed<K, V>(queue: Seq<Box<Node<K, V>>>) -> Seq<Node<K, V>> {
    Seq::new(queue.len(), |i: int| *queue[i])
}

impl<K: Ord, V> View for BSTMap<K, V> {
    type V = Map<K, V>;

    /// The map from each key held to its value.
    open spec fn view(&self) -> Map<K, V> {
        entries(self.root())
    }
}

impl<K: Ord, V> BSTMap<K, V> {
    /// The tree that holds the pairs.
    pub open(crate) spec fn root(&self) -> NodeRef<K, V> {
        self.head
    }

    /// The number of pairs that the map has counted.
    pub open(crate) spec fn stored_len(&self) -> nat {
        self.length as nat
    }

    /// What holds of every map that the operations of this type hand out:
    /// the tree is in search-tree order (at every node, the keys to its left
    /// sort before its key and those to its right after it), the stored
    /// length is the number of pairs, and every cached height is at least 1.
    pub open spec fn wf(&self) -> bool {
        &&& bst(self.root())
        &&& self.stored_len() == entries(self.root()).len()
        &&& heights_are_heights(self.root())
    }

    /// The AVL shape: every node's cached height is the height of its
    /// subtree, and the heights of its two subtrees differ by at most one.
    pub open spec fn is_balanced(&self) -> bool {
        balanced(self.root())
    }

    /// The pairs from the least key to the greatest.
    pub open spec fn inorder(&self) -> Seq<(K, V)> {
        crate::node::inorder(self.root())
    }

    /// The pairs level by level: the pair at the root, then the pairs at the
    /// children of the root from left to right, and so on down the tree.
    pub open spec fn breadth_first(&self) -> Seq<(K, V)> {
        level_order(as_forest(self.root()))
    }

    /// The empty map.
    pub fn new() -> (map: Self)
        ensures
            map.wf(),
            map.is_balanced(),
            leaves_room(map.root()),
            map.root() is None,
            map@ == Map::<K, V>::empty(),
    {
        Self { head: None, length: 0 }
    }

    /// The number of pairs held.
    pub fn len(&self) -> (n: usize)
        requires
            self.wf(),
        ensures
            n == self@.len(),
    {
        self.length
    }

    /// Whether no pair is held.
    pub fn is_empty(&self) -> (empty: bool)
        requires
            self.wf(),
        ensures
            empty == (self@.len() == 0),
    {
        self.length == 0
    }

    /// Releases every node and leaves the map empty.
    pub fn clear(&mut self)
        ensures
            final(self).wf(),
            final(self).is_balanced(),
            leaves_room(final(self).root()),
            final(self).root() is None,
            final(self)@ == Map::<K, V>::empty(),
    {
        Self::release(self.head.take(), self.length);
        self.length = 0;
    }

    /// Releases the nodes of a tree one by one, from a queue with room for
    /// `length` of them, so that the depth of the tree never reaches the call
    /// stack.
    pub(crate) fn release(head: NodeRef<K, V>, length: usize) {
        if head.is_none() {
            return ;
        }
        let mut queue = VecDeque::<Box<Node<K, V>>>::with_capacity(length);

        queue.push_front(head.unwrap());

        loop
            decreases forest_size(boxed(queue@)),
        {
            let ghost before = boxed(queue@);
            match queue.pop_back() {
                None => {
                    break ;
                },
                Some(mut node_box) => {
                    let ghost rest = boxed(queue@);
                    proof {
                        assert(before =~= rest + seq![*node_box]);
                        lemma_forest_size_concat(rest, seq![*node_box]);
                        lemma_forest_size_one(*node_box);
                    }
                    if let Some(node_l) = node_box.left.take() {
                        proof {
                            assert(boxed(seq![node_l] + queue@) =~= seq![*node_l] + boxed(queue@));
                            lemma_forest_size_concat(seq![*node_l], boxed(queue@));
                            lemma_forest_size_one(*node_l);
                        }
                        queue.push_front(node_l);
                    }
                    if let Some(node_r) = node_box.right.take() {
                        proof {
                            assert(boxed(seq![node_r] + queue@) =~= seq![*node_r] + boxed(queue@));
                            lemma_forest_size_concat(seq![*node_r], boxed(queue@));
                            lemma_forest_size_one(*node_r);
                        }
                        queue.push_front(node_r);
                    }
                },
            }
        }
    }

    /// An in-order traversal by reference.
    pub fn iter_inorder(&self) -> (iter: BSTMapByrefInorderIter<'_, K, V>)
        ensures
            iter.remaining() == self.inorder(),
    {
        BSTMapByrefInorderIter::new(self)
    }

    /// An in-order traversal by reference that hands out the values for the
    /// caller to change. It holds the map for as long as it, or a value that
    /// it yielded, is in use. Afterwards the map lists, in order, the pairs
    /// that the traversal will have held: each key with the final value of
    /// its reference. Where the subtrees that the traversal holds keep their
    /// shape, which `next` and `collect` carry on to the end, the tree of
    /// the map keeps its shape, keys and cached heights.
    pub fn iter_inorder_mut(&mut self) -> (iter: BSTMapByrefInorderIterMut<'_, K, V>)
        ensures
            iter.remaining() == old(self).inorder(),
            final(self).stored_len() == old(self).stored_len(),
            final(self).inorder() == eventual_rest(
                Seq::new(
                    iter.frames().len(),
                    |i: int|
                        (
                            (match iter.frames()[i].0 {
                                Some(r) => Some(Box::new(*final(r))),
                                None => None::<Box<Node<K, V>>>,
                            }),
                            (match iter.frames()[i].1 {
                                Some(kv) => Some((*kv.0, *final(kv.1))),
                                None => None::<(K, V)>,
                            }),
                            (match iter.frames()[i].2 {
                                Some(r) => Some(Box::new(*final(r))),
                                None => None::<Box<Node<K, V>>>,
                            }),
                        ),
                ),
            ),
            kept_all(
                sides(iter.frames()),
                Seq::new(
                    iter.frames().len(),
                    |i: int|
                        (
                            (match iter.frames()[i].0 {
                                Some(r) => Some(Box::new(*final(r))),
                                None => None::<Box<Node<K, V>>>,
                            }),
                            (match iter.frames()[i].1 {
                                Some(kv) => Some((*kv.0, *final(kv.1))),
                                None => None::<(K, V)>,
                            }),
                            (match iter.frames()[i].2 {
                                Some(r) => Some(Box::new(*final(r))),
                                None => None::<Box<Node<K, V>>>,
                            }),
                        ),
                ),
            ) ==> reshaped(old(self).root(), final(self).root()),
    {
        BSTMapByrefInorderIterMut::new(self)
    }

    /// An in-order traversal by reference that hands out the values for the
    /// caller to change.
    pub fn iter_mut(&mut self) -> (iter: BSTMapByrefInorderIterMut<'_, K, V>)
        ensures
            iter.remaining() == old(self).inorder(),
            final(self).stored_len() == old(self).stored_len(),
            final(self).inorder() == eventual_rest(
                Seq::new(
                    iter.frames().len(),
                    |i: int|
                        (
                            (match iter.frames()[i].0 {
                                Some(r) => Some(Box::new(*final(r))),
                                None => None::<Box<Node<K, V>>>,
                            }),
                            (match iter.frames()[i].1 {
                                Some(kv) => Some((*kv.0, *final(kv.1))),
                                None => None::<(K, V)>,
                            }),
                            (match iter.frames()[i].2 {
                                Some(r) => Some(Box::new(*final(r))),
                                None => None::<Box<Node<K, V>>>,
                            }),
                        ),
                ),
            ),
            kept_all(
                sides(iter.frames()),
                Seq::new(
                    iter.frames().len(),
                    |i: int|
                        (
                            (match iter.frames()[i].0 {
                                Some(r) => Some(Box::new(*final(r))),
                                None => None::<Box<Node<K, V>>>,
                            }),
                            (match iter.frames()[i].1 {
                                Some(kv) => Some((*kv.0, *final(kv.1))),
                                None => None::<(K, V)>,
                            }),
                            (match iter.frames()[i].2 {
                                Some(r) => Some(Box::new(*final(r))),
                                None => None::<Box<Node<K, V>>>,
                            }),
                        ),
                ),
            ) ==> reshaped(old(self).root(), final(self).root()),
    {
        self.iter_inorder_mut()
    }

    /// An in-order traversal that takes the map apart.
    pub fn into_iter_inorder(self) -> (iter: BSTMapConsumingInorderIter<K, V>)
        ensures
            iter.remaining() == self.inorder(),
    {
        BSTMapConsumingInorderIter::new(self)
    }

    /// A breadth-first traversal by reference.
    pub fn iter_breadthfirst(&self) -> (iter: BSTMapByrefBreadthfirstIter<'_, K, V>)
        ensures
            iter.remaining() == self.breadth_first(),
    {
        BSTMapByrefBreadthfirstIter::new(self)
    }

    /// An in-order traversal by reference.
    pub fn iter(&self) -> (iter: BSTMapByrefInorderIter<'_, K, V>)
        ensures
            iter.remaining() == self.inorder(),
    {
        self.iter_inorder()
    }
}

impl<K: Ord, V> Default for BSTMap<K, V> {
    /// The empty map.
    fn default() -> (map: Self)
        ensures
            map.wf(),
            map.is_balanced(),
            leaves_room(map.root()),
            map.root() is None,
            map@ == Map::<K, V>::empty(),
    {
        Self::new()
    }
}

} // verus!
