//! Insertion: a descent that records the path, then the way back up, which
//! reattaches each recorded node and, where a node was added, rebalances it.

use crate::bound::lemma_balanced_height_bound;
use crate::map::BSTMap;
use crate::grow::{
    lemma_balanced_leaves_room, lemma_grown, lemma_grown_heights, lemma_grown_keeps_order,
    lemma_reshaped_heights, lemma_with_value, lemma_with_value_reshaped,
};
use crate::node::{bst, entries, lemma_entries_finite, lemma_size_is_len, Node, NodeRef};
use crate::order::{key_order_is_total, lemma_cmp_meaning, lemma_lt_trichotomy};
use crate::model::{grown, growth_fits, inserted, insertion_fits, leaves_room, with_value};
use crate::path::{
    at_depth, lemma_descend, lemma_grown_step, lemma_with_value_step, reattached, step_of, Step,
    Subtree,
};
use std::cmp::Ordering;
use std::mem;
use vstd::prelude::*;

verus! {

/// `core::mem::replace`: puts `src` in the place of `*dest` and hands back
/// what was there.
pub assume_specification<T>[ core::mem::replace::<T> ](dest: &mut T, src: T) -> (previous: T)
    ensures
        *final(dest) == src,
        previous == *old(dest),
;

impl<K: Ord, V> BSTMap<K, V> {
    /// Puts `value_insert` under `key_insert`. Where the key was present,
    /// only its value changes and the previous value is returned; where it
    /// was not, a leaf is added, every node on the path to it is rebalanced
    /// from the bottom up, and `None` is returned.
    ///
    /// Every well-formed map takes the insertion, whatever removals have
    /// made of its shape: a rotation that the cached heights call for is made
    /// only where the child that it brings to the top is there. What is asked
    /// besides is room in the machine: in `usize` for the length, and in
    /// `i32` for the heights that the insertion reads and sets
    /// ([`insertion_fits`]). The cached heights of a map in AVL shape always
    /// leave that room, and a removal, `get_mut` and a mutable traversal keep
    /// the room that there is ([`crate::model::leaves_room`],
    /// [`crate::laws::law_room_admits_insertion`]).
    pub fn insert(&mut self, key_insert: K, value_insert: V) -> (previous: Option<V>)
        requires
            key_order_is_total::<K>(),
            old(self).wf(),
            old(self)@.contains_key(key_insert) || old(self)@.len() < usize::MAX,
            insertion_fits(old(self).root(), key_insert, value_insert),
        ensures
            final(self).wf(),
            final(self)@ == old(self)@.insert(key_insert, value_insert),
            previous == if old(self)@.contains_key(key_insert) {
                Some(old(self)@[key_insert])
            } else {
                None::<V>
            },
            final(self)@.len() == old(self)@.len() + if old(self)@.contains_key(key_insert) {
                0nat
            } else {
                1nat
            },
            final(self)@.contains_key(key_insert) && final(self)@[key_insert] == value_insert,
            final(self).root() == inserted(old(self).root(), key_insert, value_insert),
            old(self).is_balanced() ==> final(self).is_balanced(),
            old(self).is_balanced() ==> leaves_room(final(self).root()),
    {
        let mut node_stack: Vec<Step<K, V>> = Vec::new();
        let mut next_candidate = self.head.take();
        let ghost mut origs: Seq<NodeRef<K, V>> = seq![next_candidate];
        proof {
            lemma_entries_finite(next_candidate);
        }

        // Go down until the key has been found or an empty place reached.
        loop
            invariant
                key_order_is_total::<K>(),
                self.head is None,
                self.length == old(self).length,
                origs.len() == node_stack@.len() + 1,
                origs[0] == old(self).head,
                origs.last() == next_candidate,
                forall|i: int|
                    0 <= i < node_stack@.len() ==> step_of(
                        #[trigger] node_stack@[i],
                        origs[i],
                        origs[i + 1],
                        key_insert,
                    ),
                forall|i: int| 0 <= i < origs.len() ==> bst(#[trigger] origs[i]),
                forall|i: int|
                    0 <= i < origs.len() ==> (entries(origs[0]).contains_key(key_insert)
                        <==> entries(#[trigger] origs[i]).contains_key(key_insert)),
                forall|i: int|
                    0 <= i < origs.len() && entries(origs[0]).contains_key(key_insert) ==> entries(
                        origs[0],
                    )[key_insert] == entries(#[trigger] origs[i])[key_insert],
                forall|i: int|
                    0 <= i < origs.len() && !entries(origs[0]).contains_key(key_insert)
                        ==> growth_fits(#[trigger] origs[i], key_insert, value_insert),
            ensures
                next_candidate is Some ==> next_candidate.unwrap().key == key_insert,
            decreases next_candidate,
        {
            if next_candidate.is_none() {
                break ;
            }
            let ghost whole = next_candidate;
            let next_candidate_inner = next_candidate.as_mut().unwrap();
            proof {
                lemma_cmp_meaning(next_candidate_inner.key, key_insert);
                lemma_lt_trichotomy(next_candidate_inner.key, key_insert);
            }
            let (next_candidate_replacement, subtree) = match next_candidate_inner.key.cmp(
                &key_insert,
            ) {
                Ordering::Less => (next_candidate_inner.right.take(), Subtree::Right),
                Ordering::Greater => (next_candidate_inner.left.take(), Subtree::Left),
                Ordering::Equal => break ,
            };
            proof {
                lemma_descend(whole, key_insert);
                origs = origs.push(next_candidate_replacement);
            }

            node_stack.push((next_candidate.unwrap(), subtree));

            next_candidate = next_candidate_replacement;
        }

        // What is here now is the node to change, or the place for a new one.
        let node_to_be_replaced = next_candidate;

        if let Some(mut inner_node) = node_to_be_replaced {
            let ghost found = inner_node;
            let dest = &mut inner_node.value;
            let old_value = mem::replace(dest, value_insert);
            proof {
                assert(entries(Some(found)).contains_key(key_insert));
                assert(entries(Some(found))[key_insert] == old_value);
                assert(origs[origs.len() - 1] == Some(found));
            }

            // Put the recorded nodes back; nothing has changed shape.
            loop
                invariant
                    key_order_is_total::<K>(),
                    self.head is None,
                    self.length == old(self).length,
                    origs.len() > node_stack@.len(),
                    origs[0] == old(self).head,
                    forall|i: int|
                        0 <= i < node_stack@.len() ==> step_of(
                            #[trigger] node_stack@[i],
                            origs[i],
                            origs[i + 1],
                            key_insert,
                        ),
                    Some(inner_node) == with_value(
                        at_depth(origs, node_stack@.len()),
                        key_insert,
                        value_insert,
                    ),
                ensures
                    node_stack@.len() == 0,
                decreases node_stack@.len(),
            {
                match node_stack.pop() {
                    None => {
                        break ;
                    },
                    Some((mut parent_node, subtree)) => {
                        proof {
                            lemma_with_value_step(
                                (parent_node, subtree),
                                at_depth(origs, node_stack@.len()),
                                at_depth(origs, node_stack@.len() + 1),
                                key_insert,
                                value_insert,
                            );
                        }
                        match subtree {
                            Subtree::Left => parent_node.left = Some(inner_node),
                            Subtree::Right => parent_node.right = Some(inner_node),
                        }

                        inner_node = parent_node;
                    },
                }
            }

            self.head = Some(inner_node);
            proof {
                lemma_with_value(old(self).head, key_insert, value_insert);
                lemma_with_value_reshaped(old(self).head, key_insert, value_insert);
                lemma_reshaped_heights(old(self).head, self.head);
                if old(self).is_balanced() {
                    lemma_balanced_leaves_room(self.head);
                }
                assert(old(self)@.insert(key_insert, value_insert).dom() =~= old(self)@.dom());
            }

            return Some(old_value);
        }
        // An empty place was reached: a leaf goes there, and every node on
        // the path is rebalanced on the way up.

        let mut inner_node = Box::new(Node::new(key_insert, value_insert));
        self.length += 1;
        proof {
            assert(origs[origs.len() - 1] is None);
        }

        loop
            invariant
                key_order_is_total::<K>(),
                self.head is None,
                self.length == old(self).length + 1,
                origs.len() > node_stack@.len(),
                origs[0] == old(self).head,
                forall|i: int|
                    0 <= i < node_stack@.len() ==> step_of(
                        #[trigger] node_stack@[i],
                        origs[i],
                        origs[i + 1],
                        key_insert,
                    ),
                forall|i: int|
                    0 <= i < origs.len() ==> growth_fits(
                        #[trigger] origs[i],
                        key_insert,
                        value_insert,
                    ),
                *inner_node == grown(at_depth(origs, node_stack@.len()), key_insert, value_insert),
            ensures
                node_stack@.len() == 0,
            decreases node_stack@.len(),
        {
            match node_stack.pop() {
                None => {
                    break ;
                },
                Some((mut parent_node, subtree)) => {
                    proof {
                        let whole = at_depth(origs, node_stack@.len());
                        let child = at_depth(origs, node_stack@.len() + 1);
                        lemma_grown_step(
                            (parent_node, subtree),
                            whole,
                            child,
                            key_insert,
                            value_insert,
                        );
                        lemma_lt_trichotomy(key_insert, whole.unwrap().key);
                        assert(growth_fits(whole, key_insert, value_insert));
                    }
                    let ghost step = (parent_node, subtree);
                    match subtree {
                        Subtree::Left => parent_node.left = Some(inner_node),
                        Subtree::Right => parent_node.right = Some(inner_node),
                    }
                    assert(*parent_node == reattached(step, Some(inner_node)));

                    inner_node = Self::balance_subtree(parent_node);
                },
            }
        }

        self.head = Some(inner_node);
        proof {
            lemma_grown_keeps_order(old(self).head, key_insert, value_insert);
            lemma_grown_heights(old(self).head, key_insert, value_insert);
            if old(self).is_balanced() {
                lemma_size_is_len(old(self).head);
                lemma_balanced_height_bound(old(self).head);
                lemma_grown(old(self).head, key_insert, value_insert);
                lemma_entries_finite(self.head);
                lemma_balanced_leaves_room(self.head);
            }
        }

        // A node was added, so there is no previous value.
        None
    }
}

} // verus!
