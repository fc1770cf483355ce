//! The traversals of a map. Each is a state machine over an explicit stack or
//! queue; none recurses, so the depth of the tree never reaches the call
//! stack.

use crate::forest::{kids, lemma_level_order_step, level_order};
use crate::map::BSTMap;
use crate::node::{inorder, size, Node};
use std::collections::VecDeque;
use vstd::prelude::*;

verus! {

/// How far a node on the in-order stack has been dealt with: not at all; its
/// left subtree has been handed on; the node itself was yielded; its right
/// subtree has been handed on.
pub enum Visited {
    Nothing,
    Left,
    Node,
    Right,
}

/// An entry of the in-order stack.
pub type Frame<'a, K, V> = (&'a Node<K, V>, Visited);

/// What an entry still has to yield once all entries above it are done.
pub open spec fn frame_rest<K, V>(frame: Frame<'_, K, V>) -> Seq<(K, V)> {
    match frame.1 {
        Visited::Nothing => inorder(Some(Box::new(*frame.0))),
        Visited::Left => seq![(frame.0.key, frame.0.value)] + inorder(frame.0.right),
        Visited::Node => inorder(frame.0.right),
        Visited::Right => Seq::empty(),
    }
}

/// What a stack still has to yield: the rest of its top entry, then that of
/// the entries below it.
pub open spec fn frames_rest<K, V>(stack: Seq<Frame<'_, K, V>>) -> Seq<(K, V)>
    decreases stack.len(),
{
    if stack.len() == 0 {
        Seq::empty()
    } else {
        frame_rest(stack.last()) + frames_rest(stack.drop_last())
    }
}

/// A bound on the steps that an entry still takes.
pub open spec fn frame_steps<K, V>(frame: Frame<'_, K, V>) -> nat {
    match frame.1 {
        Visited::Nothing => 4 * size(Some(Box::new(*frame.0))),
        Visited::Left => 4 * size(frame.0.right) + 3,
        Visited::Node => 4 * size(frame.0.right) + 2,
        Visited::Right => 1,
    }
}

/// A bound on the steps until a stack is empty.
pub open spec fn frames_steps<K, V>(stack: Seq<Frame<'_, K, V>>) -> nat
    decreases stack.len(),
{
    if stack.len() == 0 {
        0
    } else {
        frame_steps(stack.last()) + frames_steps(stack.drop_last())
    }
}

/// What the top entry of a stack contributes.
pub proof fn lemma_frames_top<K, V>(stack: Seq<Frame<'_, K, V>>)
    requires
        stack.len() > 0,
    ensures
        frames_rest(stack) == frame_rest(stack.last()) + frames_rest(stack.drop_last()),
        frames_steps(stack) == frame_steps(stack.last()) + frames_steps(stack.drop_last()),
{
}

/// In-order traversal by reference.
pub struct BSTMapByrefInorderIter<'a, K: Ord, V> {
    pub(crate) stack: Vec<Frame<'a, K, V>>,
}

impl<'a, K: Ord, V> BSTMapByrefInorderIter<'a, K, V> {
    /// The pairs that are still to come, in the order in which `next` will
    /// yield them.
    pub closed spec fn remaining(&self) -> Seq<(K, V)> {
        frames_rest(self.stack@)
    }

    /// A traversal of `bst` that starts at its least key.
    pub fn new(bst: &'a BSTMap<K, V>) -> (iter: Self)
        ensures
            iter.remaining() == bst.inorder(),
    {
        let stack = match &bst.head {
            None => Vec::new(),
            Some(inner_node) => {
                let mut s = Vec::with_capacity(bst.length);
                s.push((&**inner_node, Visited::Nothing));
                proof {
                    assert(s@.drop_last() =~= Seq::<Frame<'a, K, V>>::empty());
                    assert(frames_rest(s@.drop_last()) =~= Seq::<(K, V)>::empty());
                }
                s
            },
        };
        Self { stack }
    }

    /// Yields the next pair in key order, or `None` when all have been
    /// yielded.
    pub fn next(&mut self) -> (item: Option<(&'a K, &'a V)>)
        ensures
            match item {
                Some((key, value)) => {
                    &&& old(self).remaining().len() > 0
                    &&& (*key, *value) == old(self).remaining()[0]
                    &&& final(self).remaining() == old(self).remaining().skip(1)
                },
                None => old(self).remaining().len() == 0 && final(self).remaining().len() == 0,
            },
    {
        loop
            invariant
                frames_rest(self.stack@) == frames_rest(old(self).stack@),
            decreases frames_steps(self.stack@),
        {
            let ghost before = self.stack@;
            match self.stack.last_mut() {
                None => {
                    return None;
                },
                Some(tuple) => {
                    let current_node: &'a Node<K, V> = tuple.0;
                    match tuple.1 {
                        Visited::Nothing => {
                            tuple.1 = Visited::Left;
                            let ghost marked = self.stack@;
                            proof {
                                assert(marked.drop_last() =~= before.drop_last());
                                lemma_frames_top(before);
                                lemma_frames_top(marked);
                                assert(inorder(Some(Box::new(*current_node))) =~= inorder(
                                    current_node.left,
                                ) + frame_rest(marked.last()));
                            }
                            if let Some(left_node) = &current_node.left {
                                self.stack.push((&**left_node, Visited::Nothing));
                                proof {
                                    assert(self.stack@.drop_last() =~= marked);
                                    lemma_frames_top(self.stack@);
                                    assert(frames_rest(self.stack@) =~= frames_rest(before));
                                }
                            } else {
                                proof {
                                    assert(inorder(current_node.left) =~= Seq::<(K, V)>::empty());
                                    assert(size(current_node.left) == 0);
                                    assert(frames_rest(self.stack@) =~= frames_rest(before));
                                }
                            }
                        },
                        Visited::Left => {
                            tuple.1 = Visited::Node;
                            proof {
                                assert(self.stack@.drop_last() =~= before.drop_last());
                                lemma_frames_top(before);
                                lemma_frames_top(self.stack@);
                                assert(frames_rest(self.stack@) =~= frames_rest(before).skip(1));
                            }
                            return Some((&current_node.key, &current_node.value));
                        },
                        Visited::Node => {
                            tuple.1 = Visited::Right;
                            let ghost marked = self.stack@;
                            proof {
                                assert(marked.drop_last() =~= before.drop_last());
                                lemma_frames_top(before);
                                lemma_frames_top(marked);
                            }
                            if let Some(right_node) = &current_node.right {
                                self.stack.push((&**right_node, Visited::Nothing));
                                proof {
                                    assert(self.stack@.drop_last() =~= marked);
                                    lemma_frames_top(self.stack@);
                                    assert(frames_rest(self.stack@) =~= frames_rest(before));
                                }
                            } else {
                                proof {
                                    assert(inorder(current_node.right) =~= Seq::<(K, V)>::empty());
                                    assert(size(current_node.right) == 0);
                                    assert(frames_rest(self.stack@) =~= frames_rest(before));
                                }
                            }
                        },
                        Visited::Right => {
                            self.stack.pop();
                            proof {
                                assert(self.stack@ =~= before.drop_last());
                                lemma_frames_top(before);
                                assert(frames_rest(self.stack@) =~= frames_rest(before));
                            }
                        },
                    }
                },
            }
        }
    }
    /// Runs the traversal to its end and returns what it yields, in order.
    pub fn collect(self) -> (items: Vec<(&'a K, &'a V)>)
        ensures
            items@.len() == self.remaining().len(),
            forall|i: int|
                0 <= i < items@.len() ==> (*(#[trigger] items@[i]).0, *items@[i].1)
                    == self.remaining()[i],
    {
        let mut walk = self;
        let ghost all = walk.remaining();
        let mut items: Vec<(&'a K, &'a V)> = Vec::new();
        loop
            invariant
                items@.len() <= all.len(),
                walk.remaining() == all.skip(items@.len() as int),
                forall|i: int|
                    0 <= i < items@.len() ==> (*(#[trigger] items@[i]).0, *items@[i].1) == all[i],
            ensures
                items@.len() == all.len(),
            decreases walk.remaining().len(),
        {
            let ghost got = items@;
            match walk.next() {
                None => {
                    break ;
                },
                Some(item) => {
                    items.push(item);
                    proof {
                        assert(all.skip(got.len() as int).skip(1) =~= all.skip(
                            got.len() as int + 1,
                        ));
                        assert forall|i: int| 0 <= i < items@.len() implies (
                            *(#[trigger] items@[i]).0,
                            *items@[i].1,
                        ) == all[i] by {
                            if i < got.len() {
                                assert(items@[i] == got[i]);
                            }
                        }
                    }
                },
            }
        }
        items
    }
}

/// The nodes that a queue of references points to.
pub open spec fn queued<K, V>(queue: Seq<&Node<K, V>>) -> Seq<Node<K, V>> {
    Seq::new(queue.len(), |i: int| *queue[i])
}

/// Breadth-first traversal by reference.
pub struct BSTMapByrefBreadthfirstIter<'a, K: Ord, V> {
    pub(crate) queue: VecDeque<&'a Node<K, V>>,
}

impl<'a, K: Ord, V> BSTMapByrefBreadthfirstIter<'a, K, V> {
    /// The pairs that are still to come, in the order in which `next` will
    /// yield them.
    pub closed spec fn remaining(&self) -> Seq<(K, V)> {
        level_order(queued(self.queue@))
    }

    /// A traversal of `bst` that starts at its root.
    pub fn new(bst: &'a BSTMap<K, V>) -> (iter: Self)
        ensures
            iter.remaining() == bst.breadth_first(),
    {
        let queue = match &bst.head {
            None => VecDeque::new(),
            Some(inner_node) => {
                let mut q = VecDeque::with_capacity(bst.length);
                q.push_back(&**inner_node);
                q
            },
        };
        proof {
            assert(queued(queue@) =~= crate::forest::as_forest(bst.head));
        }

        Self { queue }
    }

    /// Yields the pair at the front of the queue and queues the children of
    /// its node, the left one first; `None` when the queue is empty.
    pub fn next(&mut self) -> (item: Option<(&'a K, &'a V)>)
        ensures
            match item {
                Some((key, value)) => {
                    &&& old(self).remaining().len() > 0
                    &&& (*key, *value) == old(self).remaining()[0]
                    &&& final(self).remaining() == old(self).remaining().skip(1)
                },
                None => old(self).remaining().len() == 0 && final(self).remaining().len() == 0,
            },
    {
        let ghost before = queued(self.queue@);
        let next_element = self.queue.pop_front();

        let next_node = next_element?;
        let ghost rest = queued(self.queue@);
        proof {
            lemma_level_order_step(before);
            assert(rest =~= before.drop_first());
        }

        if let Some(left_node) = &next_node.left {
            self.queue.push_back(&**left_node);
        }
        if let Some(right_node) = &next_node.right {
            self.queue.push_back(&**right_node);
        }
        proof {
            assert(queued(self.queue@) =~= rest + kids(*next_node));
        }

        Some((&next_node.key, &next_node.value))
    }
    /// Runs the traversal to its end and returns what it yields, in order.
    pub fn collect(self) -> (items: Vec<(&'a K, &'a V)>)
        ensures
            items@.len() == self.remaining().len(),
            forall|i: int|
                0 <= i < items@.len() ==> (*(#[trigger] items@[i]).0, *items@[i].1)
                    == self.remaining()[i],
    {
        let mut walk = self;
        let ghost all = walk.remaining();
        let mut items: Vec<(&'a K, &'a V)> = Vec::new();
        loop
            invariant
                items@.len() <= all.len(),
                walk.remaining() == all.skip(items@.len() as int),
                forall|i: int|
                    0 <= i < items@.len() ==> (*(#[trigger] items@[i]).0, *items@[i].1) == all[i],
            ensures
                items@.len() == all.len(),
            decreases walk.remaining().len(),
        {
            let ghost got = items@;
            match walk.next() {
                None => {
                    break ;
                },
                Some(item) => {
                    items.push(item);
                    proof {
                        assert(all.skip(got.len() as int).skip(1) =~= all.skip(
                            got.len() as int + 1,
                        ));
                        assert forall|i: int| 0 <= i < items@.len() implies (
                            *(#[trigger] items@[i]).0,
                            *items@[i].1,
                        ) == all[i] by {
                            if i < got.len() {
                                assert(items@[i] == got[i]);
                            }
                        }
                    }
                },
            }
        }
        items
    }
}

/// What a stack of detached subtrees still has to yield: the pairs of its
/// top entry from left to right, then those of the entries below it.
pub open spec fn owned_rest<K, V>(stack: Seq<Box<Node<K, V>>>) -> Seq<(K, V)>
    decreases stack.len(),
{
    if stack.len() == 0 {
        Seq::empty()
    } else {
        inorder(Some(stack.last())) + owned_rest(stack.drop_last())
    }
}

/// The number of nodes in the top entry of a stack; 0 for the empty stack.
pub open spec fn top_size<K, V>(stack: Seq<Box<Node<K, V>>>) -> nat {
    if stack.len() == 0 {
        0
    } else {
        size(Some(stack.last()))
    }
}

/// In-order traversal that takes the map apart and yields owned pairs.
pub struct BSTMapConsumingInorderIter<K, V> {
    pub(crate) stack: Vec<Box<Node<K, V>>>,
}

impl<K: Ord, V> BSTMapConsumingInorderIter<K, V> {
    /// The pairs that are still to come, in the order in which `next` will
    /// yield them.
    pub closed spec fn remaining(&self) -> Seq<(K, V)> {
        owned_rest(self.stack@)
    }

    /// A traversal that owns the nodes of `bst` and starts at its least key.
    pub fn new(mut bst: BSTMap<K, V>) -> (iter: Self)
        ensures
            iter.remaining() == bst.inorder(),
    {
        let bst_len = bst.length;
        let stack = match bst.head.take() {
            None => Vec::new(),
            Some(inner_node) => {
                let mut s = Vec::with_capacity(bst_len);
                s.push(inner_node);
                proof {
                    assert(s@.drop_last() =~= Seq::<Box<Node<K, V>>>::empty());
                    assert(owned_rest(s@.drop_last()) =~= Seq::<(K, V)>::empty());
                }
                s
            },
        };

        Self { stack }
    }

    /// Yields the next pair in key order, or `None` when all have been
    /// yielded. The node of a yielded pair is released at once.
    pub fn next(&mut self) -> (item: Option<(K, V)>)
        ensures
            match item {
                Some(pair) => {
                    &&& old(self).remaining().len() > 0
                    &&& pair == old(self).remaining()[0]
                    &&& final(self).remaining() == old(self).remaining().skip(1)
                },
                None => old(self).remaining().len() == 0 && final(self).remaining().len() == 0,
            },
    {
        loop
            invariant
                owned_rest(self.stack@) == owned_rest(old(self).stack@),
            decreases top_size(self.stack@),
        {
            let ghost before = self.stack@;
            match self.stack.last_mut() {
                None => {
                    return None;
                },
                Some(current_node) => {
                    let saved_left = current_node.left.take();
                    let ghost cut = self.stack@;
                    proof {
                        assert(cut.drop_last() =~= before.drop_last());
                        assert(inorder(cut.last().left) =~= Seq::<(K, V)>::empty());
                        assert(inorder(Some(before.last())) =~= inorder(saved_left) + inorder(
                            Some(cut.last()),
                        ));
                    }

                    // Where there is a left subtree, it comes first.
                    if let Some(saved_left) = saved_left {
                        self.stack.push(saved_left);
                        proof {
                            assert(self.stack@.drop_last() =~= cut);
                            assert(owned_rest(self.stack@) == inorder(Some(self.stack@.last()))
                                + owned_rest(cut));
                            assert(owned_rest(cut) == inorder(Some(cut.last())) + owned_rest(
                                cut.drop_last(),
                            ));
                            assert(owned_rest(self.stack@) =~= owned_rest(before));
                        }
                    } else {
                        // Where there is none, the top of the stack is next.
                        let mut current_node = self.stack.pop().unwrap();

                        let ghost top = current_node;
                        let saved_right = current_node.right.take();
                        let ghost below = self.stack@;
                        proof {
                            assert(below =~= before.drop_last());
                            assert(inorder(saved_left) =~= Seq::<(K, V)>::empty());
                            assert(inorder(Some(top)) =~= seq![(top.key, top.value)] + inorder(
                                saved_right,
                            ));
                        }

                        // Its right subtree follows it.
                        if let Some(saved_right) = saved_right {
                            self.stack.push(saved_right);
                            proof {
                                assert(self.stack@.drop_last() =~= below);
                                assert(owned_rest(self.stack@) == inorder(Some(self.stack@.last()))
                                    + owned_rest(below));
                            }
                        } else {
                            proof {
                                assert(inorder(saved_right) =~= Seq::<(K, V)>::empty());
                            }
                        }
                        proof {
                            assert(owned_rest(self.stack@) =~= owned_rest(before).skip(1));
                        }
                        let node = *current_node;

                        return Some((node.key, node.value));
                    }
                },
            }
        }
    }
    /// Runs the traversal to its end and returns what it yields, in order.
    pub fn collect(self) -> (items: Vec<(K, V)>)
        ensures
            items@ == self.remaining(),
    {
        let mut walk = self;
        let ghost all = walk.remaining();
        let mut items: Vec<(K, V)> = Vec::new();
        loop
            invariant
                items@.len() <= all.len(),
                walk.remaining() == all.skip(items@.len() as int),
                items@ == all.take(items@.len() as int),
            ensures
                items@.len() == all.len(),
            decreases walk.remaining().len(),
        {
            let ghost got = items@;
            match walk.next() {
                None => {
                    break ;
                },
                Some(item) => {
                    items.push(item);
                    proof {
                        assert(all.skip(got.len() as int).skip(1) =~= all.skip(
                            got.len() as int + 1,
                        ));
                        assert(items@ =~= all.take(got.len() as int + 1));
                    }
                },
            }
        }
        proof {
            assert(all.take(all.len() as int) =~= all);
        }
        items
    }
}

} // verus!
