//! Removal: a descent to the node that holds the key, which is then spliced
//! out of the tree where it stands. The cached heights are left as they are
//! and nothing is rotated.

use crate::map::BSTMap;
use crate::node::{bst, entries, lemma_entries_finite, Node, NodeRef};
use crate::order::{
    key_order_is_total, lemma_cmp_meaning, lemma_lt_transitive, lemma_lt_trichotomy, lt,
};
use crate::grow::{lemma_removed_heights, lemma_removed_leaves_room};
use crate::model::{leaves_room, leftmost, removed, spliced, without_leftmost};
use crate::path::{
    agree_but_at, lemma_descend, lemma_plug_follows, lemma_plug_order, lemma_plug_push,
    lemma_plug_shape, lemma_removed_step, lemma_same_step, lemma_without_leftmost_step, path_of,
    plug, reattached, Step, Subtree,
};
use std::cmp::Ordering;
use vstd::prelude::*;

verus! {

/// The leftmost key of a subtree in search-tree order is held by it and
/// sorts before every other key of it.
pub proof fn lemma_least_key<K: Ord, V>(t: NodeRef<K, V>)
    requires
        key_order_is_total::<K>(),
        t is Some,
        bst(t),
    ensures
        entries(t).contains_key(leftmost(t).key),
        entries(t)[leftmost(t).key] == leftmost(t).value,
        forall|k: K|
            #[trigger] entries(t).contains_key(k) ==> k == leftmost(t).key || lt(
                leftmost(t).key,
                k,
            ),
        leftmost(t).left is None,
    decreases t,
{
    let n = t.unwrap();
    let m = leftmost(t).key;
    if n.left is Some {
        lemma_least_key(n.left);
        assert(entries(n.left).contains_key(m));
        assert(lt(m, n.key));
        lemma_lt_trichotomy(m, n.key);
        assert(!entries(n.right).contains_key(m)) by {
            if entries(n.right).contains_key(m) {
                lemma_lt_trichotomy(m, n.key);
            }
        }
        assert forall|k: K| #[trigger] entries(t).contains_key(k) implies k == m || lt(m, k) by {
            if entries(n.right).contains_key(k) {
                lemma_lt_transitive(m, n.key, k);
            } else if k != n.key {
                assert(entries(n.left).contains_key(k));
            }
        }
    } else {
        assert(entries(n.left) == Map::<K, V>::empty());
        assert forall|k: K| #[trigger] entries(t).contains_key(k) implies k == m || lt(m, k) by {
            if k != n.key {
                assert(entries(n.right).contains_key(k));
            }
        }
    }
}

impl<K: Ord, V> BSTMap<K, V> {
    /// Detaches the leftmost node of the subtree in `right`, whose root must
    /// have a left child. The right subtree of the detached node takes its
    /// place; the node comes back without children.
    pub(crate) fn take_successor(right: &mut NodeRef<K, V>) -> (successor: Box<Node<K, V>>)
        requires
            key_order_is_total::<K>(),
            *old(right) is Some,
            old(right).unwrap().left is Some,
            bst(*old(right)),
        ensures
            successor.key == leftmost(*old(right)).key,
            successor.value == leftmost(*old(right)).value,
            successor.height == leftmost(*old(right)).height,
            successor.left is None && successor.right is None,
            *final(right) == without_leftmost(*old(right)),
            *final(right) is Some,
            bst(*final(right)),
            entries(*final(right)) == entries(*old(right)).remove(successor.key),
    {
        let ghost least = leftmost(*right).key;
        let ghost right_final = *final(right);
        let ghost mut steps: Seq<Step<K, V>> = Seq::empty();
        let ghost mut origs: Seq<NodeRef<K, V>> = seq![*right];
        let mut successors_parent = right;

        // While the successor has a left subtree, move one level to the left.
        loop
            invariant
                key_order_is_total::<K>(),
                least == leftmost(*old(right)).key,
                path_of(steps, origs, least),
                origs[0] == *old(right),
                origs.last() == *successors_parent,
                right_final == plug(steps, *final(successors_parent)),
                *successors_parent is Some,
                successors_parent.unwrap().left is Some,
                leftmost(*successors_parent) == leftmost(*old(right)),
                forall|i: int| 0 <= i < origs.len() ==> (#[trigger] origs[i]) is Some,
                forall|i: int| 0 <= i < steps.len() ==> (#[trigger] steps[i]).1 is Left,
            ensures
                successors_parent.unwrap().left.unwrap().left is None,
            decreases *successors_parent,
        {
            if successors_parent.as_ref().unwrap().left.as_ref().unwrap().left.is_none() {
                break ;
            }
            let ghost whole = *successors_parent;
            let ghost step: Step<K, V> = (
                Box::new(
                    Node {
                        left: None,
                        right: whole.unwrap().right,
                        height: whole.unwrap().height,
                        key: whole.unwrap().key,
                        value: whole.unwrap().value,
                    },
                ),
                Subtree::Left,
            );
            proof {
                lemma_least_key(whole.unwrap().left);
                lemma_lt_trichotomy(least, whole.unwrap().key);
                lemma_descend(whole, least);
            }
            successors_parent = &mut successors_parent.as_mut().unwrap().left;
            proof {
                lemma_plug_push(steps, step, *final(successors_parent));
                steps = steps.push(step);
                origs = origs.push(*successors_parent);
            }
        }

        let ghost before = *successors_parent;
        let parent = successors_parent.as_mut().unwrap();
        // Take the successor out; its right subtree takes its place.
        let mut successor_inner = parent.left.take().unwrap();
        let ghost found = successor_inner;
        parent.left = successor_inner.right.take();
        proof {
            let after = *successors_parent;
            lemma_least_key(*old(right));
            assert(before.unwrap().left == Some(found));
            assert(found.left is None);
            assert(entries(found.left) == Map::<K, V>::empty());
            assert(leftmost(before.unwrap().left).key == found.key);
            assert(found.key == least);
            assert(bst(before.unwrap().left));
            assert(entries(Some(found)) =~= entries(found.right).insert(found.key, found.value));
            assert(entries(before.unwrap().left).contains_key(found.key));
            lemma_lt_trichotomy(found.key, before.unwrap().key);
            assert(!entries(found.right).contains_key(found.key)) by {
                if entries(found.right).contains_key(found.key) {
                    lemma_lt_trichotomy(found.key, found.key);
                }
            }
            assert(!entries(before.unwrap().right).contains_key(found.key)) by {
                if entries(before.unwrap().right).contains_key(found.key) {
                    lemma_lt_trichotomy(found.key, before.unwrap().key);
                }
            }
            assert forall|k: K| #[trigger] entries(after.unwrap().left).contains_key(k) implies lt(
                k,
                after.unwrap().key,
            ) by {
                assert(entries(before.unwrap().left).contains_key(k));
            }
            assert(bst(after));
            assert(entries(after) =~= entries(before).remove(found.key));
            lemma_plug_order(steps, origs, after, least);
            assert(entries(right_final) =~= entries(*old(right)).remove(found.key));
            assert(leftmost(before.unwrap().left) == *found);
            assert(without_leftmost(before.unwrap().left) == found.right);
            assert(after == without_leftmost(before));
            let cut = |t: NodeRef<K, V>| without_leftmost(t);
            assert forall|i: int| 0 <= i < steps.len() implies cut(origs[i]) == Some(
                Box::new(reattached(#[trigger] steps[i], cut(origs[i + 1]))),
            ) by {
                lemma_without_leftmost_step(steps[i], origs[i], origs[i + 1], least);
            }
            lemma_plug_follows(steps, origs, cut);
        }

        successor_inner
    }

    /// Splices the node in `slot` out of the tree and returns its value. What
    /// takes its place depends on its children: nothing where it has none;
    /// its one child; its right child, with the left subtree handed over,
    /// where that child has no left child; else its successor, detached from
    /// the right subtree and given both subtrees.
    pub(crate) fn take_out(slot: &mut NodeRef<K, V>) -> (value: V)
        requires
            key_order_is_total::<K>(),
            *old(slot) is Some,
            bst(*old(slot)),
        ensures
            value == old(slot).unwrap().value,
            bst(*final(slot)),
            entries(*final(slot)) == entries(*old(slot)).remove(old(slot).unwrap().key),
            agree_but_at(entries(*final(slot)), entries(*old(slot)), old(slot).unwrap().key),
            *final(slot) == spliced(*old(slot).unwrap()),
    {
        let ghost gone = old(slot).unwrap();
        proof {
            lemma_lt_trichotomy(gone.key, gone.key);
            assert(!entries(gone.left).contains_key(gone.key) && !entries(gone.right).contains_key(
                gone.key,
            ));
        }
        let inner = slot.as_ref().unwrap();

        // A leaf: it just goes.
        if inner.right.is_none() && inner.left.is_none() {
            let detached = slot.take().unwrap();
            proof {
                assert(entries(gone.left) == Map::<K, V>::empty());
                assert(entries(gone.right) == Map::<K, V>::empty());
                assert(entries(*slot) =~= entries(*old(slot)).remove(gone.key));
            }
            return detached.value;
        }
        // One child: the child takes the place.

        if inner.right.is_none() {
            let detached = *slot.take().unwrap();
            let saved_left = detached.left;
            let saved_value = detached.value;

            *slot = saved_left;
            proof {
                assert(entries(gone.right) == Map::<K, V>::empty());
                assert(entries(*slot) =~= entries(*old(slot)).remove(gone.key));
            }

            return saved_value;
        }
        if inner.left.is_none() {
            let detached = *slot.take().unwrap();
            let saved_right = detached.right;
            let saved_value = detached.value;

            *slot = saved_right;
            proof {
                assert(entries(gone.left) == Map::<K, V>::empty());
                assert(entries(*slot) =~= entries(*old(slot)).remove(gone.key));
            }

            return saved_value;
        }
        // Two children, and the right child has no left child: it is the
        // successor, and takes the place together with the left subtree.

        if inner.right.as_ref().unwrap().left.is_none() {
            let detached = *slot.take().unwrap();
            let saved_left = detached.left;
            let saved_right = detached.right;
            let saved_value = detached.value;

            *slot = saved_right;
            slot.as_mut().unwrap().left = saved_left;
            proof {
                let up = gone.right.unwrap();
                assert(bst(gone.right));
                assert(entries(up.left) == Map::<K, V>::empty());
                assert(entries(gone.right).contains_key(up.key));
                assert forall|k: K| #[trigger] entries(gone.left).contains_key(k) implies lt(
                    k,
                    up.key,
                ) by {
                    lemma_lt_transitive(k, gone.key, up.key);
                }
                assert(bst(*slot));
                assert(!entries(gone.left).contains_key(up.key)) by {
                    if entries(gone.left).contains_key(up.key) {
                        lemma_lt_trichotomy(up.key, gone.key);
                    }
                }
                assert(entries(*slot) =~= entries(*old(slot)).remove(gone.key));
            }

            return saved_value;
        }
        // Two children, and the successor lies deeper: it is detached from
        // the right subtree and takes the place with both subtrees.

        let detached = *slot.take().unwrap();
        let saved_left = detached.left;
        let mut saved_right = detached.right;
        let saved_value = detached.value;

        let mut successor_inner = Self::take_successor(&mut saved_right);
        proof {
            lemma_least_key(gone.right);
            assert forall|k: K| #[trigger] entries(saved_left).contains_key(k) implies lt(
                k,
                successor_inner.key,
            ) by {
                lemma_lt_transitive(k, gone.key, successor_inner.key);
            }
            assert(!entries(gone.left).contains_key(successor_inner.key)) by {
                if entries(gone.left).contains_key(successor_inner.key) {
                    lemma_lt_trichotomy(successor_inner.key, gone.key);
                }
            }
            lemma_lt_trichotomy(successor_inner.key, gone.key);
        }

        successor_inner.right = saved_right;
        successor_inner.left = saved_left;
        *slot = Some(successor_inner);
        proof {
            assert(bst(*slot));
            assert(entries(*slot) =~= entries(*old(slot)).remove(gone.key));
        }

        saved_value
    }

    /// Takes `key` and its value out of the map and returns the value;
    /// `None` where the key is not held, and then nothing changes.
    ///
    /// The node found is spliced out where it stands. A leaf is dropped; a
    /// node with one child is replaced by that child; a node with two
    /// children is replaced by its successor, the leftmost node of its right
    /// subtree, whose own right subtree moves up into the successor's former
    /// place. No height is set anew and nothing is rotated, so the AVL shape
    /// that `insert` relies on may be lost.
    pub fn remove(&mut self, key: K) -> (value: Option<V>)
        requires
            key_order_is_total::<K>(),
            old(self).wf(),
        ensures
            final(self).wf(),
            final(self)@ == old(self)@.remove(key),
            value == if old(self)@.contains_key(key) {
                Some(old(self)@[key])
            } else {
                None::<V>
            },
            !final(self)@.contains_key(key),
            final(self)@.len() == old(self)@.len() - if old(self)@.contains_key(key) {
                1nat
            } else {
                0nat
            },
            !old(self)@.contains_key(key) ==> final(self).root() == old(self).root(),
            final(self).root() == removed(old(self).root(), key),
            leaves_room(old(self).root()) ==> leaves_room(final(self).root()),
    {
        proof {
            lemma_entries_finite(self.head);
            lemma_removed_heights(self.head, key);
            if leaves_room(self.head) {
                lemma_removed_leaves_room(self.head, key);
            }
        }
        // First: find the node, if it is there at all.
        let mut current_node = &mut self.head;
        let ghost root_final = *final(current_node);
        let ghost mut steps: Seq<Step<K, V>> = Seq::empty();
        let ghost mut origs: Seq<NodeRef<K, V>> = seq![old(self).head];

        loop
            invariant
                key_order_is_total::<K>(),
                path_of(steps, origs, key),
                origs[0] == old(self).head,
                origs.last() == *current_node,
                after_borrow(self.head) == root_final,
                after_borrow(self.length) == old(self).length,
                root_final == plug(steps, *final(current_node)),
                old(self).wf(),
                old(self)@.contains_key(key) <==> entries(*current_node).contains_key(key),
                old(self)@.contains_key(key) ==> old(self)@[key] == entries(*current_node)[key],
            ensures
                *current_node is Some,
                current_node.unwrap().key == key,
            decreases *current_node,
        {
            if current_node.is_none() {
                proof {
                    lemma_plug_order(steps, origs, None, key);
                    lemma_plug_shape(steps, origs, None, key);
                    assert(entries(root_final) =~= old(self)@);
                    assert(old(self)@.remove(key) =~= old(self)@);
                    let cut = |t: NodeRef<K, V>| removed(t, key);
                    assert forall|i: int| 0 <= i < steps.len() implies cut(origs[i]) == Some(
                        Box::new(reattached(#[trigger] steps[i], cut(origs[i + 1]))),
                    ) by {
                        lemma_removed_step(steps[i], origs[i], origs[i + 1], key);
                    }
                    lemma_plug_follows(steps, origs, cut);
                    assert forall|i: int| 0 <= i < steps.len() implies origs[i] == Some(
                        Box::new(reattached(#[trigger] steps[i], origs[i + 1])),
                    ) by {
                        lemma_same_step(steps[i], origs[i], origs[i + 1], key);
                    }
                    lemma_plug_follows(steps, origs, |t: NodeRef<K, V>| t);
                }
                return None;
            }
            let ghost whole = *current_node;
            proof {
                lemma_cmp_meaning(whole.unwrap().key, key);
                lemma_lt_trichotomy(whole.unwrap().key, key);
                if whole.unwrap().key != key {
                    lemma_descend(whole, key);
                }
            }
            match current_node.as_ref().unwrap().key.cmp(&key) {
                Ordering::Less => {
                    let ghost step: Step<K, V> = (
                        Box::new(
                            Node {
                                left: whole.unwrap().left,
                                right: None,
                                height: whole.unwrap().height,
                                key: whole.unwrap().key,
                                value: whole.unwrap().value,
                            },
                        ),
                        Subtree::Right,
                    );
                    current_node = &mut current_node.as_mut().unwrap().right;
                    proof {
                        lemma_plug_push(steps, step, *final(current_node));
                        steps = steps.push(step);
                        origs = origs.push(*current_node);
                    }
                },
                Ordering::Greater => {
                    let ghost step: Step<K, V> = (
                        Box::new(
                            Node {
                                left: None,
                                right: whole.unwrap().right,
                                height: whole.unwrap().height,
                                key: whole.unwrap().key,
                                value: whole.unwrap().value,
                            },
                        ),
                        Subtree::Left,
                    );
                    current_node = &mut current_node.as_mut().unwrap().left;
                    proof {
                        lemma_plug_push(steps, step, *final(current_node));
                        steps = steps.push(step);
                        origs = origs.push(*current_node);
                    }
                },
                Ordering::Equal => {
                    break ;
                },
            }
        }

        // The node is there, so something is removed.
        let saved_value = Self::take_out(current_node);
        proof {
            lemma_plug_order(steps, origs, *final(current_node), key);
            assert(entries(root_final) =~= old(self)@.remove(key));
            let cut = |t: NodeRef<K, V>| removed(t, key);
            assert(cut(origs.last()) == *final(current_node));
            assert forall|i: int| 0 <= i < steps.len() implies cut(origs[i]) == Some(
                Box::new(reattached(#[trigger] steps[i], cut(origs[i + 1]))),
            ) by {
                lemma_removed_step(steps[i], origs[i], origs[i + 1], key);
            }
            lemma_plug_follows(steps, origs, cut);
        }
        self.length -= 1;

        Some(saved_value)
    }
}

} // verus!
