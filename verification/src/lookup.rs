//! Looking a key up: a descent from the root that changes nothing.

use crate::map::BSTMap;
use crate::node::{bst, entries, NodeRef};
use crate::order::{key_order_is_total, lemma_cmp_meaning, lemma_lt_trichotomy};
use crate::grow::{lemma_reshaped_heights, lemma_with_value_reshaped};
use crate::model::{leaves_room, with_value};
use crate::path::{
    lemma_descend, lemma_plug_follows, lemma_plug_order, lemma_plug_push, lemma_plug_shape,
    lemma_same_step, lemma_with_value_step, path_of, plug, Step, Subtree,
};
use crate::node::Node;
use crate::path::reattached;
use std::cmp::Ordering;
use vstd::prelude::*;

verus! {

impl<K: Ord, V> BSTMap<K, V> {
    /// Whether `key` is held.
    pub fn contains(&self, key: K) -> (found: bool)
        requires
            key_order_is_total::<K>(),
            self.wf(),
        ensures
            found == self@.contains_key(key),
    {
        let mut current_node = &self.head;

        loop
            invariant
                key_order_is_total::<K>(),
                bst(*current_node),
                self@.contains_key(key) <==> entries(*current_node).contains_key(key),
            decreases *current_node,
        {
            match current_node.as_ref() {
                None => {
                    return false;
                },
                Some(inner) => {
                    proof {
                        lemma_cmp_meaning(inner.key, key);
                        lemma_lt_trichotomy(inner.key, key);
                        if inner.key != key {
                            lemma_descend(*current_node, key);
                        }
                    }
                    current_node =
                    match inner.key.cmp(&key) {
                        Ordering::Less => &inner.right,
                        Ordering::Greater => &inner.left,
                        Ordering::Equal => return true,
                    }
                },
            }
        }
    }

    /// The value held under `key`, if there is one.
    pub fn get(&self, key: &K) -> (found: Option<&V>)
        requires
            key_order_is_total::<K>(),
            self.wf(),
        ensures
            found == if self@.contains_key(*key) {
                Some(&self@[*key])
            } else {
                None
            },
    {
        let mut current_node = &self.head;

        loop
            invariant
                key_order_is_total::<K>(),
                bst(*current_node),
                self@.contains_key(*key) <==> entries(*current_node).contains_key(*key),
                self@.contains_key(*key) ==> self@[*key] == entries(*current_node)[*key],
            decreases *current_node,
        {
            match current_node.as_ref() {
                None => {
                    return None;
                },
                Some(inner) => {
                    proof {
                        lemma_cmp_meaning(inner.key, *key);
                        lemma_lt_trichotomy(inner.key, *key);
                        if inner.key != *key {
                            lemma_descend(*current_node, *key);
                        }
                    }
                    current_node =
                    match inner.key.cmp(key) {
                        Ordering::Less => &inner.right,
                        Ordering::Greater => &inner.left,
                        Ordering::Equal => return Some(&inner.value),
                    }
                },
            }
        }
    }

    /// The value held under `key`, if there is one, for the caller to change
    /// in place. Nothing else of the map can change through it.
    pub fn get_mut(&mut self, key: &K) -> (found: Option<&mut V>)
        requires
            key_order_is_total::<K>(),
            old(self).wf(),
        ensures
            final(self).wf(),
            final(self).is_balanced() == old(self).is_balanced(),
            leaves_room(final(self).root()) == leaves_room(old(self).root()),
            match found {
                Some(value) => {
                    &&& old(self)@.contains_key(*key)
                    &&& *value == old(self)@[*key]
                    &&& final(self)@ == old(self)@.insert(*key, *final(value))
                    &&& final(self).root() == with_value(old(self).root(), *key, *final(value))
                },
                None => !old(self)@.contains_key(*key) && final(self).root() == old(self).root(),
            },
    {
        let mut current_node = &mut self.head;
        let ghost root_final = *final(current_node);
        let ghost mut steps: Seq<Step<K, V>> = Seq::empty();
        let ghost mut origs: Seq<NodeRef<K, V>> = seq![old(self).head];

        loop
            invariant
                key_order_is_total::<K>(),
                path_of(steps, origs, *key),
                origs[0] == old(self).head,
                origs.last() == *current_node,
                after_borrow(self.head) == root_final,
                after_borrow(self.length) == old(self).length,
                root_final == plug(steps, *final(current_node)),
                old(self).wf(),
                old(self)@.contains_key(*key) <==> entries(*current_node).contains_key(*key),
                old(self)@.contains_key(*key) ==> old(self)@[*key] == entries(*current_node)[*key],
            decreases *current_node,
        {
            let ghost whole = *current_node;
            match current_node {
                None => {
                    proof {
                        lemma_plug_order(steps, origs, None, *key);
                        lemma_plug_shape(steps, origs, None, *key);
                        assert(entries(root_final) =~= old(self)@);
                        assert forall|i: int| 0 <= i < steps.len() implies origs[i] == Some(
                            Box::new(reattached(#[trigger] steps[i], origs[i + 1])),
                        ) by {
                            lemma_same_step(steps[i], origs[i], origs[i + 1], *key);
                        }
                        lemma_plug_follows(steps, origs, |t: NodeRef<K, V>| t);
                    }
                    return None;
                },
                Some(inner) => {
                    proof {
                        lemma_cmp_meaning(inner.key, *key);
                        lemma_lt_trichotomy(inner.key, *key);
                        if inner.key != *key {
                            lemma_descend(whole, *key);
                        }
                    }
                    match inner.key.cmp(key) {
                        Ordering::Less => {
                            let ghost step: Step<K, V> = (
                                Box::new(
                                    Node {
                                        left: inner.left,
                                        right: None,
                                        height: inner.height,
                                        key: inner.key,
                                        value: inner.value,
                                    },
                                ),
                                Subtree::Right,
                            );
                            current_node = &mut inner.right;
                            proof {
                                lemma_plug_push(steps, step, *final(current_node));
                                steps = steps.push(step);
                                origs = origs.push(*current_node);
                            }
                        },
                        Ordering::Greater => {
                            let ghost step: Step<K, V> = (
                                Box::new(
                                    Node {
                                        left: None,
                                        right: inner.right,
                                        height: inner.height,
                                        key: inner.key,
                                        value: inner.value,
                                    },
                                ),
                                Subtree::Left,
                            );
                            current_node = &mut inner.left;
                            proof {
                                lemma_plug_push(steps, step, *final(current_node));
                                steps = steps.push(step);
                                origs = origs.push(*current_node);
                            }
                        },
                        Ordering::Equal => {
                            let value = &mut inner.value;
                            proof {
                                let after: NodeRef<K, V> = Some(
                                    Box::new(
                                        Node {
                                            left: whole.unwrap().left,
                                            right: whole.unwrap().right,
                                            height: whole.unwrap().height,
                                            key: whole.unwrap().key,
                                            value: *final(value),
                                        },
                                    ),
                                );
                                assert(entries(after) =~= entries(whole).insert(
                                    *key,
                                    *final(value),
                                ));
                                lemma_plug_order(steps, origs, after, *key);
                                lemma_plug_shape(steps, origs, after, *key);
                                lemma_with_value_reshaped(old(self).head, *key, *final(value));
                                lemma_reshaped_heights(
                                    old(self).head,
                                    with_value(old(self).head, *key, *final(value)),
                                );
                                let put = |t: NodeRef<K, V>| with_value(t, *key, *final(value));
                                assert(put(whole) == after);
                                assert forall|i: int| 0 <= i < steps.len() implies put(origs[i])
                                    == Some(
                                    Box::new(reattached(#[trigger] steps[i], put(origs[i + 1]))),
                                ) by {
                                    lemma_with_value_step(
                                        steps[i],
                                        origs[i],
                                        origs[i + 1],
                                        *key,
                                        *final(value),
                                    );
                                }
                                lemma_plug_follows(steps, origs, put);
                                assert(entries(root_final) =~= old(self)@.insert(
                                    *key,
                                    *final(value),
                                ));
                                assert(old(self)@.insert(*key, *final(value)).dom() =~= old(
                                    self,
                                )@.dom());
                            }
                            return Some(value);
                        },
                    }
                },
            }
        }
    }
}

} // verus!
