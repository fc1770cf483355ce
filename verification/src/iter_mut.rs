//! In-order traversal that hands out the values for the caller to change.
//!
//! The traversal holds mutable references into the tree, and what the map
//! holds afterwards is what those references hold when they are done with.
//! The contracts therefore speak of the final value of each reference that
//! an entry of the stack holds, gathered entry by entry into a [`Then`]:
//!
//! - [`eventual_rest`] of them is the listing that the map will have. The
//!   constructor equates the two, and each `next` takes the yielded key with
//!   the final value of the yielded reference off its front.
//! - [`kept_all`] says that the subtrees still held keep shape, keys and
//!   cached heights. Each `next` hands it from the stack after the call to
//!   the stack before it, and the constructor from the first stack to the
//!   tree of the map. It holds of an empty stack, which a traversal that ran
//!   to its end leaves, and of a stack that was dropped, whose references
//!   end as they are ([`crate::laws::law_unchanged_is_reshaped`]).
//!   [`crate::laws::law_walk_keeps_the_map`] draws from it that the map is
//!   still well formed and in AVL shape if it was.

use crate::map::BSTMap;
use crate::model::reshaped;
use crate::node::{entries, inorder, size, Node, NodeRef};
use vstd::prelude::*;

verus! {

/// An entry of the stack: the left subtree while it is still to be walked,
/// the pair of the node while it is still to be yielded, and the right
/// subtree while it is still to be walked.
pub type FrameMut<'a, K, V> = (
    Option<&'a mut Node<K, V>>,
    Option<(&'a K, &'a mut V)>,
    Option<&'a mut Node<K, V>>,
);

/// The subtree that is held by reference, as it is now.
pub open spec fn side_tree<K, V>(side: Option<&mut Node<K, V>>) -> NodeRef<K, V> {
    match side {
        None => None,
        Some(node) => Some(Box::new(*node)),
    }
}

/// The pairs of a subtree that is held by reference, from left to right.
pub open spec fn side_rest<K, V>(side: Option<&mut Node<K, V>>) -> Seq<(K, V)> {
    match side {
        None => Seq::empty(),
        Some(node) => inorder(Some(Box::new(*node))),
    }
}

/// The number of nodes of a subtree that is held by reference.
pub open spec fn side_size<K, V>(side: Option<&mut Node<K, V>>) -> nat {
    match side {
        None => 0,
        Some(node) => size(Some(Box::new(*node))),
    }
}

/// What an entry still has to yield once all entries above it are done.
pub open spec fn frame_mut_rest<K, V>(frame: FrameMut<'_, K, V>) -> Seq<(K, V)> {
    side_rest(frame.0) + match frame.1 {
        None => Seq::empty(),
        Some((key, value)) => seq![(*key, *value)],
    } + side_rest(frame.2)
}

/// What a stack still has to yield.
pub open spec fn frames_mut_rest<K, V>(stack: Seq<FrameMut<'_, K, V>>) -> Seq<(K, V)>
    decreases stack.len(),
{
    if stack.len() == 0 {
        Seq::empty()
    } else {
        frame_mut_rest(stack.last()) + frames_mut_rest(stack.drop_last())
    }
}

/// A bound on the steps that an entry still takes.
pub open spec fn frame_mut_steps<K, V>(frame: FrameMut<'_, K, V>) -> nat {
    3 * side_size(frame.0) + 3 * side_size(frame.2) + 1 + if frame.1 is Some {
        1nat
    } else {
        0nat
    }
}

/// A bound on the steps until a stack is empty.
pub open spec fn frames_mut_steps<K, V>(stack: Seq<FrameMut<'_, K, V>>) -> nat
    decreases stack.len(),
{
    if stack.len() == 0 {
        0
    } else {
        frame_mut_steps(stack.last()) + frames_mut_steps(stack.drop_last())
    }
}

/// What the top entry of a stack contributes.
pub proof fn lemma_frames_mut_top<K, V>(stack: Seq<FrameMut<'_, K, V>>)
    requires
        stack.len() > 0,
    ensures
        frames_mut_rest(stack) == frame_mut_rest(stack.last()) + frames_mut_rest(stack.drop_last()),
        frames_mut_steps(stack) == frame_mut_steps(stack.last()) + frames_mut_steps(
            stack.drop_last(),
        ),
{
}

/// What the references of one entry will hold in the end: the final left
/// subtree, the key with the final value, and the final right subtree; each
/// only where the entry still holds the reference.
pub type Then<K, V> = (NodeRef<K, V>, Option<(K, V)>, NodeRef<K, V>);

/// The subtrees that the entries of a stack hold, as they are now.
pub open spec fn sides<K, V>(stack: Seq<FrameMut<'_, K, V>>) -> Seq<
    (NodeRef<K, V>, NodeRef<K, V>),
> {
    Seq::new(stack.len(), |i: int| (side_tree(stack[i].0), side_tree(stack[i].2)))
}

/// Every subtree that is held keeps its shape, its keys and its cached
/// heights to the end.
pub open spec fn kept_all<K, V>(
    now: Seq<(NodeRef<K, V>, NodeRef<K, V>)>,
    then: Seq<Then<K, V>>,
) -> bool {
    &&& now.len() == then.len()
    &&& forall|i: int|
        0 <= i < now.len() ==> reshaped((#[trigger] now[i]).0, then[i].0) && reshaped(
            now[i].1,
            then[i].2,
        )
}

/// The pairs that one entry will have held in the end, from left to right.
pub open spec fn then_rest<K, V>(then: Then<K, V>) -> Seq<(K, V)> {
    inorder(then.0) + match then.1 {
        None => Seq::empty(),
        Some(pair) => seq![pair],
    } + inorder(then.2)
}

/// The pairs that a stack will have held in the end, in the order of the
/// traversal: those of the top entry first.
pub open spec fn eventual_rest<K, V>(then: Seq<Then<K, V>>) -> Seq<(K, V)>
    decreases then.len(),
{
    if then.len() == 0 {
        Seq::empty()
    } else {
        then_rest(then.last()) + eventual_rest(then.drop_last())
    }
}

/// Splitting the subtree that the top entry holds on one side changes
/// nothing that will have been held in the end, and where the split parts
/// keep their shape, so does the subtree that was split.
pub proof fn lemma_split_step<K, V>(
    now_before: Seq<(NodeRef<K, V>, NodeRef<K, V>)>,
    then_before: Seq<Then<K, V>>,
    now_after: Seq<(NodeRef<K, V>, NodeRef<K, V>)>,
    then_after: Seq<Then<K, V>>,
    taken: Node<K, V>,
    taken_final: Node<K, V>,
    left: bool,
)
    requires
        now_before.len() == then_before.len() > 0,
        now_after.len() == then_after.len() == now_before.len() + 1,
        forall|i: int| 0 <= i < now_before.len() - 1 ==> #[trigger] now_after[i] == now_before[i],
        forall|i: int|
            0 <= i < then_before.len() - 1 ==> #[trigger] then_after[i] == then_before[i],
        taken_final.key == taken.key,
        taken_final.height == taken.height,
        ({
            let n = now_before.len() - 1;
            &&& now_after[n + 1] == (taken.left, taken.right)
            &&& then_after[n + 1] == (
                taken_final.left,
                Some((taken_final.key, taken_final.value)),
                taken_final.right,
            )
            &&& then_after[n].1 == then_before[n].1
            &&& if left {
                &&& now_before[n].0 == Some(Box::new(taken))
                &&& then_before[n].0 == Some(Box::new(taken_final))
                &&& now_after[n] == (None::<Box<Node<K, V>>>, now_before[n].1)
                &&& then_after[n].0 is None
                &&& then_after[n].2 == then_before[n].2
            } else {
                &&& now_before[n].1 == Some(Box::new(taken))
                &&& then_before[n].2 == Some(Box::new(taken_final))
                &&& then_before[n].0 is None
                &&& then_before[n].1 is None
                &&& now_after[n] == (now_before[n].0, None::<Box<Node<K, V>>>)
                &&& then_after[n].0 is None
                &&& then_after[n].2 is None
            }
        }),
    ensures
        eventual_rest(then_after) == eventual_rest(then_before),
        kept_all(now_after, then_after) ==> kept_all(now_before, then_before),
{
    let n = now_before.len() - 1;
    assert(then_after.drop_last().drop_last() =~= then_before.drop_last());
    assert(then_after.drop_last().last() == then_after[n]);
    assert(eventual_rest(then_after) == then_rest(then_after[n + 1]) + eventual_rest(
        then_after.drop_last(),
    ));
    assert(eventual_rest(then_after.drop_last()) == then_rest(then_after[n]) + eventual_rest(
        then_before.drop_last(),
    ));
    assert(eventual_rest(then_before) == then_rest(then_before[n]) + eventual_rest(
        then_before.drop_last(),
    ));
    assert(inorder(Some(Box::new(taken_final))) =~= then_rest(then_after[n + 1]));
    assert(inorder(None::<Box<Node<K, V>>>) =~= Seq::<(K, V)>::empty());
    assert(then_rest(then_after[n + 1]) + then_rest(then_after[n]) =~= then_rest(then_before[n]));
    assert(eventual_rest(then_after) =~= eventual_rest(then_before));
    if kept_all(now_after, then_after) {
        assert(reshaped(now_after[n + 1].0, then_after[n + 1].0));
        assert(reshaped(now_after[n].0, then_after[n].0));
        assert(reshaped(Some(Box::new(taken)), Some(Box::new(taken_final))));
        assert forall|i: int| 0 <= i < now_before.len() implies reshaped(
            (#[trigger] now_before[i]).0,
            then_before[i].0,
        ) && reshaped(now_before[i].1, then_before[i].2) by {
            if i < n {
                assert(reshaped(now_after[i].0, then_after[i].0));
            }
        }
    }
}

/// Yielding the pair of the top entry takes that pair from what will have
/// been held in the end, and nothing else changes.
pub proof fn lemma_yield_step<K, V>(
    now_before: Seq<(NodeRef<K, V>, NodeRef<K, V>)>,
    then_before: Seq<Then<K, V>>,
    now_after: Seq<(NodeRef<K, V>, NodeRef<K, V>)>,
    then_after: Seq<Then<K, V>>,
    pair: (K, V),
)
    requires
        now_before.len() == then_before.len() > 0,
        now_after == now_before,
        then_after.len() == then_before.len(),
        forall|i: int| 0 <= i < then_before.len() - 1 ==> then_after[i] == then_before[i],
        ({
            let n = then_before.len() - 1;
            &&& then_before[n].0 is None
            &&& then_before[n].1 == Some(pair)
            &&& then_after[n] == (None::<Box<Node<K, V>>>, None::<(K, V)>, then_before[n].2)
        }),
    ensures
        eventual_rest(then_before) == seq![pair] + eventual_rest(then_after),
        kept_all(now_after, then_after) ==> kept_all(now_before, then_before),
{
    let n = then_before.len() - 1;
    assert(then_after.drop_last() =~= then_before.drop_last());
    assert(inorder(None::<Box<Node<K, V>>>) =~= Seq::<(K, V)>::empty());
    assert(then_rest(then_before[n]) =~= seq![pair] + then_rest(then_after[n]));
    assert(eventual_rest(then_before) =~= seq![pair] + eventual_rest(then_after));
    if kept_all(now_after, then_after) {
        assert forall|i: int| 0 <= i < now_before.len() implies reshaped(
            (#[trigger] now_before[i]).0,
            then_before[i].0,
        ) && reshaped(now_before[i].1, then_before[i].2) by {
            assert(reshaped(now_after[i].0, then_after[i].0));
        }
    }
}

/// Dropping a top entry that holds nothing changes nothing.
pub proof fn lemma_pop_step<K, V>(
    now_before: Seq<(NodeRef<K, V>, NodeRef<K, V>)>,
    then_before: Seq<Then<K, V>>,
    now_after: Seq<(NodeRef<K, V>, NodeRef<K, V>)>,
    then_after: Seq<Then<K, V>>,
)
    requires
        now_before.len() == then_before.len() > 0,
        now_after == now_before.drop_last(),
        then_after == then_before.drop_last(),
        now_before.last() == (None::<Box<Node<K, V>>>, None::<Box<Node<K, V>>>),
        then_before.last() == (None::<Box<Node<K, V>>>, None::<(K, V)>, None::<Box<Node<K, V>>>),
    ensures
        eventual_rest(then_before) == eventual_rest(then_after),
        kept_all(now_after, then_after) ==> kept_all(now_before, then_before),
{
    assert(inorder(None::<Box<Node<K, V>>>) =~= Seq::<(K, V)>::empty());
    assert(then_rest(then_before.last()) =~= Seq::<(K, V)>::empty());
    assert(eventual_rest(then_before) =~= eventual_rest(then_after));
    if kept_all(now_after, then_after) {
        assert forall|i: int| 0 <= i < now_before.len() implies reshaped(
            (#[trigger] now_before[i]).0,
            then_before[i].0,
        ) && reshaped(now_before[i].1, then_before[i].2) by {
            if i < now_after.len() {
                assert(reshaped(now_after[i].0, then_after[i].0));
            }
        }
    }
}

/// In-order traversal by reference, with the values mutable.
pub struct BSTMapByrefInorderIterMut<'a, K: 'a + Ord, V: 'a> {
    pub(crate) stack: Vec<FrameMut<'a, K, V>>,
}

impl<'a, K: 'a + Ord, V: 'a> BSTMapByrefInorderIterMut<'a, K, V> {
    /// The pairs that are still to come, with the values as they are now, in
    /// the order in which `next` will yield them.
    pub closed spec fn remaining(&self) -> Seq<(K, V)> {
        frames_mut_rest(self.stack@)
    }

    /// The entries of the stack, the top one last. The contracts speak of
    /// the references in them: of what a reference holds now (`*r`) and of
    /// what it will hold when it is done with (`*final(r)`).
    pub open(crate) spec fn frames(&self) -> Seq<FrameMut<'a, K, V>> {
        self.stack@
    }

    /// A traversal of `bst` that starts at its least key.
    ///
    /// What the map will hold when the traversal and the references that it
    /// hands out are done with is stated over what the references of the
    /// traversal will hold then: the map will list, in order, the pairs that
    /// the traversal will have held, and where every subtree that the
    /// traversal holds keeps its shape, keys and cached heights, so does the
    /// tree of the map. `next` and `collect` carry both on.
    pub fn new(bst: &'a mut BSTMap<K, V>) -> (iter: Self)
        ensures
            iter.remaining() == old(bst).inorder(),
            final(bst).stored_len() == old(bst).stored_len(),
            final(bst).inorder() == eventual_rest(
                Seq::new(
                    iter.frames().len(),
                    |i: int|
                        (
                            (match iter.frames()[i].0 {
                                Some(r) => Some(Box::new(*final(r))),
                                None => None::<Box<Node<K, V>>>,
                            }),
                            (match iter.frames()[i].1 {
                                Some(kv) => Some((*kv.0, *final(kv.1))),
                                None => None::<(K, V)>,
                            }),
                            (match iter.frames()[i].2 {
                                Some(r) => Some(Box::new(*final(r))),
                                None => None::<Box<Node<K, V>>>,
                            }),
                        ),
                ),
            ),
            kept_all(
                sides(iter.frames()),
                Seq::new(
                    iter.frames().len(),
                    |i: int|
                        (
                            (match iter.frames()[i].0 {
                                Some(r) => Some(Box::new(*final(r))),
                                None => None::<Box<Node<K, V>>>,
                            }),
                            (match iter.frames()[i].1 {
                                Some(kv) => Some((*kv.0, *final(kv.1))),
                                None => None::<(K, V)>,
                            }),
                            (match iter.frames()[i].2 {
                                Some(r) => Some(Box::new(*final(r))),
                                None => None::<Box<Node<K, V>>>,
                            }),
                        ),
                ),
            ) ==> reshaped(old(bst).root(), final(bst).root()),
    {
        let bst_len = bst.length;
        let stack = match &mut bst.head {
            None => Vec::new(),
            Some(inner_node) => {
                let mut s = Vec::with_capacity(bst_len);
                let node: &'a mut Node<K, V> = &mut **inner_node;
                let ghost whole = *node;
                let ghost whole_final = *final(node);
                let frame = Self::split(node);
                let ghost top = frame;
                s.push(frame);
                proof {
                    assert(s@.drop_last() =~= Seq::<FrameMut<'a, K, V>>::empty());
                    assert(frames_mut_rest(s@.drop_last()) =~= Seq::<(K, V)>::empty());
                    assert(s@[0] == top);
                    let then = Seq::new(
                        s@.len(),
                        |i: int|
                            (
                                (match s@[i].0 {
                                    Some(r) => Some(Box::new(*final(r))),
                                    None => None::<Box<Node<K, V>>>,
                                }),
                                (match s@[i].1 {
                                    Some(kv) => Some((*kv.0, *final(kv.1))),
                                    None => None::<(K, V)>,
                                }),
                                (match s@[i].2 {
                                    Some(r) => Some(Box::new(*final(r))),
                                    None => None::<Box<Node<K, V>>>,
                                }),
                            ),
                    );
                    assert(then[0] == (
                        whole_final.left,
                        Some((whole_final.key, whole_final.value)),
                        whole_final.right,
                    ));
                    assert(sides(s@)[0] == (whole.left, whole.right));
                    assert(then.drop_last() =~= Seq::<Then<K, V>>::empty());
                    assert(eventual_rest(then.drop_last()) =~= Seq::<(K, V)>::empty());
                    assert(then.last() == then[0]);
                    assert(then_rest(then[0]) =~= inorder(Some(Box::new(whole_final))));
                    assert(eventual_rest(then) =~= inorder(Some(Box::new(whole_final))));
                    assert(kept_all(sides(s@), then) ==> reshaped(
                        Some(Box::new(whole)),
                        Some(Box::new(whole_final)),
                    ));
                }
                s
            },
        };
        let iter = Self { stack };
        proof {
            if iter.frames().len() == 0 {
                assert(eventual_rest(
                    Seq::new(
                        iter.frames().len(),
                        |i: int|
                            (
                                (match iter.frames()[i].0 {
                                    Some(r) => Some(Box::new(*final(r))),
                                    None => None::<Box<Node<K, V>>>,
                                }),
                                (match iter.frames()[i].1 {
                                    Some(kv) => Some((*kv.0, *final(kv.1))),
                                    None => None::<(K, V)>,
                                }),
                                (match iter.frames()[i].2 {
                                    Some(r) => Some(Box::new(*final(r))),
                                    None => None::<Box<Node<K, V>>>,
                                }),
                            ),
                    ),
                ) =~= Seq::<(K, V)>::empty());
            }
        }
        iter
    }

    /// Splits a node into its left subtree, its pair and its right subtree.
    pub(crate) fn split(node: &'a mut Node<K, V>) -> (frame: FrameMut<'a, K, V>)
        ensures
            frame_mut_rest(frame) == inorder(Some(Box::new(*old(node)))),
            frame_mut_steps(frame) + 1 == 3 * size(Some(Box::new(*old(node)))),
            side_tree(frame.0) == old(node).left,
            side_tree(frame.2) == old(node).right,
            frame.1 is Some,
            *frame.1.unwrap().0 == old(node).key,
            *frame.1.unwrap().1 == old(node).value,
            final(node).key == old(node).key,
            final(node).height == old(node).height,
            final(node).value == *final(frame.1.unwrap().1),
            final(node).left == (match frame.0 {
                Some(r) => Some(Box::new(*final(r))),
                None => None::<Box<Node<K, V>>>,
            }),
            final(node).right == (match frame.2 {
                Some(r) => Some(Box::new(*final(r))),
                None => None::<Box<Node<K, V>>>,
            }),
    {
        let left = match &mut node.left {
            Some(boxed) => Some(&mut **boxed),
            None => None,
        };
        let right = match &mut node.right {
            Some(boxed) => Some(&mut **boxed),
            None => None,
        };
        let frame = (left, Some((&node.key, &mut node.value)), right);
        proof {
            assert(side_rest(frame.0) =~= inorder(old(node).left));
            assert(side_rest(frame.2) =~= inorder(old(node).right));
            assert(side_size(frame.0) == size(old(node).left));
            assert(side_size(frame.2) == size(old(node).right));
            assert(size(Some(Box::new(*old(node)))) == 1 + size(old(node).left) + size(
                old(node).right,
            ));
            assert(frame_mut_rest(frame) =~= inorder(Some(Box::new(*old(node)))));
        }
        frame
    }

    /// Yields the next pair in key order, the value for the caller to
    /// change, or `None` when all have been yielded.
    ///
    /// Of the final values the call states this: what the traversal will
    /// have held in the end is the yielded key with the final value of the
    /// yielded reference, and then what the traversal as it is after the
    /// call will have held; and where every subtree that it holds after the
    /// call keeps its shape, keys and cached heights, so does every subtree
    /// that it held before.
    pub fn next(&mut self) -> (item: Option<(&'a K, &'a mut V)>)
        ensures
            match item {
                Some((key, value)) => {
                    &&& old(self).remaining().len() > 0
                    &&& (*key, *value) == old(self).remaining()[0]
                    &&& final(self).remaining() == old(self).remaining().skip(1)
                },
                None => old(self).remaining().len() == 0 && final(self).remaining().len() == 0,
            },
            item is None ==> final(self).frames().len() == 0,
            eventual_rest(
                Seq::new(
                    old(self).frames().len(),
                    |i: int|
                        (
                            (match old(self).frames()[i].0 {
                                Some(r) => Some(Box::new(*final(r))),
                                None => None::<Box<Node<K, V>>>,
                            }),
                            (match old(self).frames()[i].1 {
                                Some(kv) => Some((*kv.0, *final(kv.1))),
                                None => None::<(K, V)>,
                            }),
                            (match old(self).frames()[i].2 {
                                Some(r) => Some(Box::new(*final(r))),
                                None => None::<Box<Node<K, V>>>,
                            }),
                        ),
                ),
            ) == (match item {
                Some(kv) => seq![(*kv.0, *final(kv.1))],
                None => Seq::<(K, V)>::empty(),
            }) + eventual_rest(
                Seq::new(
                    final(self).frames().len(),
                    |i: int|
                        (
                            (match final(self).frames()[i].0 {
                                Some(r) => Some(Box::new(*final(r))),
                                None => None::<Box<Node<K, V>>>,
                            }),
                            (match final(self).frames()[i].1 {
                                Some(kv) => Some((*kv.0, *final(kv.1))),
                                None => None::<(K, V)>,
                            }),
                            (match final(self).frames()[i].2 {
                                Some(r) => Some(Box::new(*final(r))),
                                None => None::<Box<Node<K, V>>>,
                            }),
                        ),
                ),
            ),
            kept_all(
                sides(final(self).frames()),
                Seq::new(
                    final(self).frames().len(),
                    |i: int|
                        (
                            (match final(self).frames()[i].0 {
                                Some(r) => Some(Box::new(*final(r))),
                                None => None::<Box<Node<K, V>>>,
                            }),
                            (match final(self).frames()[i].1 {
                                Some(kv) => Some((*kv.0, *final(kv.1))),
                                None => None::<(K, V)>,
                            }),
                            (match final(self).frames()[i].2 {
                                Some(r) => Some(Box::new(*final(r))),
                                None => None::<Box<Node<K, V>>>,
                            }),
                        ),
                ),
            ) ==> kept_all(
                sides(old(self).frames()),
                Seq::new(
                    old(self).frames().len(),
                    |i: int|
                        (
                            (match old(self).frames()[i].0 {
                                Some(r) => Some(Box::new(*final(r))),
                                None => None::<Box<Node<K, V>>>,
                            }),
                            (match old(self).frames()[i].1 {
                                Some(kv) => Some((*kv.0, *final(kv.1))),
                                None => None::<(K, V)>,
                            }),
                            (match old(self).frames()[i].2 {
                                Some(r) => Some(Box::new(*final(r))),
                                None => None::<Box<Node<K, V>>>,
                            }),
                        ),
                ),
            ),
    {
        loop
            invariant
                frames_mut_rest(self.stack@) == frames_mut_rest(old(self).stack@),
                eventual_rest(
                    Seq::new(
                        self.stack@.len(),
                        |i: int|
                            (
                                (match self.stack@[i].0 {
                                    Some(r) => Some(Box::new(*final(r))),
                                    None => None::<Box<Node<K, V>>>,
                                }),
                                (match self.stack@[i].1 {
                                    Some(kv) => Some((*kv.0, *final(kv.1))),
                                    None => None::<(K, V)>,
                                }),
                                (match self.stack@[i].2 {
                                    Some(r) => Some(Box::new(*final(r))),
                                    None => None::<Box<Node<K, V>>>,
                                }),
                            ),
                    ),
                ) == eventual_rest(
                    Seq::new(
                        old(self).stack@.len(),
                        |i: int|
                            (
                                (match old(self).stack@[i].0 {
                                    Some(r) => Some(Box::new(*final(r))),
                                    None => None::<Box<Node<K, V>>>,
                                }),
                                (match old(self).stack@[i].1 {
                                    Some(kv) => Some((*kv.0, *final(kv.1))),
                                    None => None::<(K, V)>,
                                }),
                                (match old(self).stack@[i].2 {
                                    Some(r) => Some(Box::new(*final(r))),
                                    None => None::<Box<Node<K, V>>>,
                                }),
                            ),
                    ),
                ),
                kept_all(
                    sides(self.stack@),
                    Seq::new(
                        self.stack@.len(),
                        |i: int|
                            (
                                (match self.stack@[i].0 {
                                    Some(r) => Some(Box::new(*final(r))),
                                    None => None::<Box<Node<K, V>>>,
                                }),
                                (match self.stack@[i].1 {
                                    Some(kv) => Some((*kv.0, *final(kv.1))),
                                    None => None::<(K, V)>,
                                }),
                                (match self.stack@[i].2 {
                                    Some(r) => Some(Box::new(*final(r))),
                                    None => None::<Box<Node<K, V>>>,
                                }),
                            ),
                    ),
                ) ==> kept_all(
                    sides(old(self).stack@),
                    Seq::new(
                        old(self).stack@.len(),
                        |i: int|
                            (
                                (match old(self).stack@[i].0 {
                                    Some(r) => Some(Box::new(*final(r))),
                                    None => None::<Box<Node<K, V>>>,
                                }),
                                (match old(self).stack@[i].1 {
                                    Some(kv) => Some((*kv.0, *final(kv.1))),
                                    None => None::<(K, V)>,
                                }),
                                (match old(self).stack@[i].2 {
                                    Some(r) => Some(Box::new(*final(r))),
                                    None => None::<Box<Node<K, V>>>,
                                }),
                            ),
                    ),
                ),
            decreases frames_mut_steps(self.stack@),
        {
            let ghost before = self.stack@;
            match self.stack.last_mut() {
                None => {
                    proof {
                        assert(eventual_rest(
                            Seq::new(
                                self.stack@.len(),
                                |i: int|
                                    (
                                        (match self.stack@[i].0 {
                                            Some(r) => Some(Box::new(*final(r))),
                                            None => None::<Box<Node<K, V>>>,
                                        }),
                                        (match self.stack@[i].1 {
                                            Some(kv) => Some((*kv.0, *final(kv.1))),
                                            None => None::<(K, V)>,
                                        }),
                                        (match self.stack@[i].2 {
                                            Some(r) => Some(Box::new(*final(r))),
                                            None => None::<Box<Node<K, V>>>,
                                        }),
                                    ),
                            ),
                        ) =~= Seq::<(K, V)>::empty());
                    }
                    return None;
                },
                Some(tuple) => {
                    if let Some(inner_node) = tuple.0.take() {
                        let ghost marked = self.stack@;
                        let ghost taken = *inner_node;
                        let ghost taken_final = *final(inner_node);
                        let frame = Self::split(inner_node);
                        let ghost pushed = frame;
                        self.stack.push(frame);
                        proof {
                            assert(marked.drop_last() =~= before.drop_last());
                            assert(self.stack@.drop_last() =~= marked);
                            lemma_frames_mut_top(before);
                            lemma_frames_mut_top(marked);
                            lemma_frames_mut_top(self.stack@);
                            assert(frames_mut_rest(self.stack@) =~= frames_mut_rest(before));
                            let n = before.len() - 1;
                            assert(self.stack@[n + 1] == pushed);
                            assert(self.stack@[n] == marked[n]);
                            assert(forall|i: int| 0 <= i < n ==> self.stack@[i] == before[i]);
                            lemma_split_step(
                                sides(before),
                                Seq::new(
                                    before.len(),
                                    |i: int|
                                        (
                                            (match before[i].0 {
                                                Some(r) => Some(Box::new(*final(r))),
                                                None => None::<Box<Node<K, V>>>,
                                            }),
                                            (match before[i].1 {
                                                Some(kv) => Some((*kv.0, *final(kv.1))),
                                                None => None::<(K, V)>,
                                            }),
                                            (match before[i].2 {
                                                Some(r) => Some(Box::new(*final(r))),
                                                None => None::<Box<Node<K, V>>>,
                                            }),
                                        ),
                                ),
                                sides(self.stack@),
                                Seq::new(
                                    self.stack@.len(),
                                    |i: int|
                                        (
                                            (match self.stack@[i].0 {
                                                Some(r) => Some(Box::new(*final(r))),
                                                None => None::<Box<Node<K, V>>>,
                                            }),
                                            (match self.stack@[i].1 {
                                                Some(kv) => Some((*kv.0, *final(kv.1))),
                                                None => None::<(K, V)>,
                                            }),
                                            (match self.stack@[i].2 {
                                                Some(r) => Some(Box::new(*final(r))),
                                                None => None::<Box<Node<K, V>>>,
                                            }),
                                        ),
                                ),
                                taken,
                                taken_final,
                                true,
                            );
                        }
                        continue ;
                    }
                    if let Some(inner_node) = tuple.1.take() {
                        proof {
                            assert(self.stack@.drop_last() =~= before.drop_last());
                            lemma_frames_mut_top(before);
                            lemma_frames_mut_top(self.stack@);
                            assert(frames_mut_rest(self.stack@) =~= frames_mut_rest(before).skip(
                                1,
                            ));
                            let n = before.len() - 1;
                            assert(forall|i: int| 0 <= i < n ==> self.stack@[i] == before[i]);
                            assert(self.stack@[n].0 == before[n].0 && self.stack@[n].2
                                == before[n].2);
                            assert(before[n].1 == Some(inner_node));
                            assert(sides(self.stack@) =~= sides(before));
                            lemma_yield_step(
                                sides(before),
                                Seq::new(
                                    before.len(),
                                    |i: int|
                                        (
                                            (match before[i].0 {
                                                Some(r) => Some(Box::new(*final(r))),
                                                None => None::<Box<Node<K, V>>>,
                                            }),
                                            (match before[i].1 {
                                                Some(kv) => Some((*kv.0, *final(kv.1))),
                                                None => None::<(K, V)>,
                                            }),
                                            (match before[i].2 {
                                                Some(r) => Some(Box::new(*final(r))),
                                                None => None::<Box<Node<K, V>>>,
                                            }),
                                        ),
                                ),
                                sides(self.stack@),
                                Seq::new(
                                    self.stack@.len(),
                                    |i: int|
                                        (
                                            (match self.stack@[i].0 {
                                                Some(r) => Some(Box::new(*final(r))),
                                                None => None::<Box<Node<K, V>>>,
                                            }),
                                            (match self.stack@[i].1 {
                                                Some(kv) => Some((*kv.0, *final(kv.1))),
                                                None => None::<(K, V)>,
                                            }),
                                            (match self.stack@[i].2 {
                                                Some(r) => Some(Box::new(*final(r))),
                                                None => None::<Box<Node<K, V>>>,
                                            }),
                                        ),
                                ),
                                (*inner_node.0, *final(inner_node.1)),
                            );
                        }
                        return Some(inner_node);
                    }
                    if let Some(inner_node) = tuple.2.take() {
                        let ghost marked = self.stack@;
                        let ghost taken = *inner_node;
                        let ghost taken_final = *final(inner_node);
                        let frame = Self::split(inner_node);
                        let ghost pushed = frame;
                        self.stack.push(frame);
                        proof {
                            assert(marked.drop_last() =~= before.drop_last());
                            assert(self.stack@.drop_last() =~= marked);
                            lemma_frames_mut_top(before);
                            lemma_frames_mut_top(marked);
                            lemma_frames_mut_top(self.stack@);
                            assert(frames_mut_rest(self.stack@) =~= frames_mut_rest(before));
                            let n = before.len() - 1;
                            assert(self.stack@[n + 1] == pushed);
                            assert(self.stack@[n] == marked[n]);
                            assert(forall|i: int| 0 <= i < n ==> self.stack@[i] == before[i]);
                            lemma_split_step(
                                sides(before),
                                Seq::new(
                                    before.len(),
                                    |i: int|
                                        (
                                            (match before[i].0 {
                                                Some(r) => Some(Box::new(*final(r))),
                                                None => None::<Box<Node<K, V>>>,
                                            }),
                                            (match before[i].1 {
                                                Some(kv) => Some((*kv.0, *final(kv.1))),
                                                None => None::<(K, V)>,
                                            }),
                                            (match before[i].2 {
                                                Some(r) => Some(Box::new(*final(r))),
                                                None => None::<Box<Node<K, V>>>,
                                            }),
                                        ),
                                ),
                                sides(self.stack@),
                                Seq::new(
                                    self.stack@.len(),
                                    |i: int|
                                        (
                                            (match self.stack@[i].0 {
                                                Some(r) => Some(Box::new(*final(r))),
                                                None => None::<Box<Node<K, V>>>,
                                            }),
                                            (match self.stack@[i].1 {
                                                Some(kv) => Some((*kv.0, *final(kv.1))),
                                                None => None::<(K, V)>,
                                            }),
                                            (match self.stack@[i].2 {
                                                Some(r) => Some(Box::new(*final(r))),
                                                None => None::<Box<Node<K, V>>>,
                                            }),
                                        ),
                                ),
                                taken,
                                taken_final,
                                false,
                            );
                        }
                        continue ;
                    }
                    self.stack.pop();
                    proof {
                        assert(self.stack@ =~= before.drop_last());
                        lemma_frames_mut_top(before);
                        assert(frames_mut_rest(self.stack@) =~= frames_mut_rest(before));
                        let n = before.len() - 1;
                        assert(before[n].0 is None && before[n].1 is None && before[n].2 is None);
                        let then_before = Seq::new(
                            before.len(),
                            |i: int|
                                (
                                    (match before[i].0 {
                                        Some(r) => Some(Box::new(*final(r))),
                                        None => None::<Box<Node<K, V>>>,
                                    }),
                                    (match before[i].1 {
                                        Some(kv) => Some((*kv.0, *final(kv.1))),
                                        None => None::<(K, V)>,
                                    }),
                                    (match before[i].2 {
                                        Some(r) => Some(Box::new(*final(r))),
                                        None => None::<Box<Node<K, V>>>,
                                    }),
                                ),
                        );
                        let then_after = Seq::new(
                            self.stack@.len(),
                            |i: int|
                                (
                                    (match self.stack@[i].0 {
                                        Some(r) => Some(Box::new(*final(r))),
                                        None => None::<Box<Node<K, V>>>,
                                    }),
                                    (match self.stack@[i].1 {
                                        Some(kv) => Some((*kv.0, *final(kv.1))),
                                        None => None::<(K, V)>,
                                    }),
                                    (match self.stack@[i].2 {
                                        Some(r) => Some(Box::new(*final(r))),
                                        None => None::<Box<Node<K, V>>>,
                                    }),
                                ),
                        );
                        assert(then_after =~= then_before.drop_last());
                        assert(sides(self.stack@) =~= sides(before).drop_last());
                        lemma_pop_step(sides(before), then_before, sides(self.stack@), then_after);
                    }
                },
            }
        }
    }

    /// Runs the traversal to its end and returns what it yields, in order,
    /// each value for the caller to change.
    ///
    /// Every subtree that the traversal held keeps its shape, keys and
    /// cached heights, and what the traversal will have held in the end is
    /// the yielded keys, each with the final value of its reference.
    pub fn collect(self) -> (items: Vec<(&'a K, &'a mut V)>)
        ensures
            items@.len() == self.remaining().len(),
            forall|i: int|
                0 <= i < items@.len() ==> (*(#[trigger] items@[i]).0, *items@[i].1)
                    == self.remaining()[i],
            kept_all(
                sides(self.frames()),
                Seq::new(
                    self.frames().len(),
                    |i: int|
                        (
                            (match self.frames()[i].0 {
                                Some(r) => Some(Box::new(*final(r))),
                                None => None::<Box<Node<K, V>>>,
                            }),
                            (match self.frames()[i].1 {
                                Some(kv) => Some((*kv.0, *final(kv.1))),
                                None => None::<(K, V)>,
                            }),
                            (match self.frames()[i].2 {
                                Some(r) => Some(Box::new(*final(r))),
                                None => None::<Box<Node<K, V>>>,
                            }),
                        ),
                ),
            ),
            eventual_rest(
                Seq::new(
                    self.frames().len(),
                    |i: int|
                        (
                            (match self.frames()[i].0 {
                                Some(r) => Some(Box::new(*final(r))),
                                None => None::<Box<Node<K, V>>>,
                            }),
                            (match self.frames()[i].1 {
                                Some(kv) => Some((*kv.0, *final(kv.1))),
                                None => None::<(K, V)>,
                            }),
                            (match self.frames()[i].2 {
                                Some(r) => Some(Box::new(*final(r))),
                                None => None::<Box<Node<K, V>>>,
                            }),
                        ),
                ),
            ) == Seq::new(
                items@.len(),
                |j: int| (*items@[j].0, *final(items@[j].1)),
            ),
    {
        let ghost now_first = sides(self.frames());
        let ghost then_first = Seq::new(
            self.frames().len(),
            |i: int|
                (
                    (match self.frames()[i].0 {
                        Some(r) => Some(Box::new(*final(r))),
                        None => None::<Box<Node<K, V>>>,
                    }),
                    (match self.frames()[i].1 {
                        Some(kv) => Some((*kv.0, *final(kv.1))),
                        None => None::<(K, V)>,
                    }),
                    (match self.frames()[i].2 {
                        Some(r) => Some(Box::new(*final(r))),
                        None => None::<Box<Node<K, V>>>,
                    }),
                ),
        );
        let mut walk = self;
        let ghost all = walk.remaining();
        let mut items: Vec<(&'a K, &'a mut V)> = Vec::new();
        proof {
            assert(Seq::new(
                items@.len(),
                |j: int| (*items@[j].0, *final(items@[j].1)),
            ) =~= Seq::<(K, V)>::empty());
        }
        loop
            invariant
                items@.len() <= all.len(),
                walk.remaining() == all.skip(items@.len() as int),
                forall|i: int|
                    0 <= i < items@.len() ==> (*(#[trigger] items@[i]).0, *items@[i].1) == all[i],
                eventual_rest(then_first) == Seq::new(
                    items@.len(),
                    |j: int| (*items@[j].0, *final(items@[j].1)),
                ) + eventual_rest(
                    Seq::new(
                        walk.frames().len(),
                        |i: int|
                            (
                                (match walk.frames()[i].0 {
                                    Some(r) => Some(Box::new(*final(r))),
                                    None => None::<Box<Node<K, V>>>,
                                }),
                                (match walk.frames()[i].1 {
                                    Some(kv) => Some((*kv.0, *final(kv.1))),
                                    None => None::<(K, V)>,
                                }),
                                (match walk.frames()[i].2 {
                                    Some(r) => Some(Box::new(*final(r))),
                                    None => None::<Box<Node<K, V>>>,
                                }),
                            ),
                    ),
                ),
                kept_all(
                    sides(walk.frames()),
                    Seq::new(
                        walk.frames().len(),
                        |i: int|
                            (
                                (match walk.frames()[i].0 {
                                    Some(r) => Some(Box::new(*final(r))),
                                    None => None::<Box<Node<K, V>>>,
                                }),
                                (match walk.frames()[i].1 {
                                    Some(kv) => Some((*kv.0, *final(kv.1))),
                                    None => None::<(K, V)>,
                                }),
                                (match walk.frames()[i].2 {
                                    Some(r) => Some(Box::new(*final(r))),
                                    None => None::<Box<Node<K, V>>>,
                                }),
                            ),
                    ),
                ) ==> kept_all(now_first, then_first),
            ensures
                items@.len() == all.len(),
                walk.frames().len() == 0,
            decreases walk.remaining().len(),
        {
            let ghost got = items@;
            match walk.next() {
                None => {
                    break ;
                },
                Some(item) => {
                    items.push(item);
                    proof {
                        assert(all.skip(got.len() as int).skip(1) =~= all.skip(
                            got.len() as int + 1,
                        ));
                        assert forall|i: int| 0 <= i < items@.len() implies (
                            *(#[trigger] items@[i]).0,
                            *items@[i].1,
                        ) == all[i] by {
                            if i < got.len() {
                                assert(items@[i] == got[i]);
                            }
                        }
                        assert(forall|j: int| 0 <= j < got.len() ==> items@[j] == got[j]);
                        assert(items@[got.len() as int] == item);
                        assert(Seq::new(
                            items@.len(),
                            |j: int| (*items@[j].0, *final(items@[j].1)),
                        ) =~= Seq::new(
                            got.len(),
                            |j: int| (*got[j].0, *final(got[j].1)),
                        ).push((*item.0, *final(item.1))));
                    }
                },
            }
        }
        proof {
            assert(eventual_rest(
                Seq::new(
                    walk.frames().len(),
                    |i: int|
                        (
                            (match walk.frames()[i].0 {
                                Some(r) => Some(Box::new(*final(r))),
                                None => None::<Box<Node<K, V>>>,
                            }),
                            (match walk.frames()[i].1 {
                                Some(kv) => Some((*kv.0, *final(kv.1))),
                                None => None::<(K, V)>,
                            }),
                            (match walk.frames()[i].2 {
                                Some(r) => Some(Box::new(*final(r))),
                                None => None::<Box<Node<K, V>>>,
                            }),
                        ),
                ),
            ) =~= Seq::<(K, V)>::empty());
        }
        items
    }
}

} // verus!
