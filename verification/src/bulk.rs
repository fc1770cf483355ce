//! Filling a map from a list of pairs.

use crate::grow::{lemma_balanced_leaves_room, lemma_balanced_run_fits, lemma_run_fits_prefix};
use crate::map::BSTMap;
use crate::model::{built, leaves_room, put_all, run_fits};
use crate::node::{lemma_entries_finite, Node};
use crate::order::key_order_is_total;
use vstd::prelude::*;

verus! {

impl<K: Ord, V> BSTMap<K, V> {
    /// Puts `pairs` into the map one after the other, from the first to the
    /// last; a later pair replaces an earlier one with the same key.
    ///
    /// Besides room in `usize` for the length, the heights that the
    /// insertions read and set must fit `i32` ([`run_fits`]); on a map in AVL
    /// shape they do ([`crate::laws::law_avl_shape_admits_extension`]).
    pub fn extend(&mut self, pairs: Vec<(K, V)>)
        requires
            key_order_is_total::<K>(),
            old(self).wf(),
            old(self)@.len() + pairs@.len() <= usize::MAX,
            run_fits(old(self).root(), pairs@),
        ensures
            final(self).wf(),
            final(self)@ == put_all(old(self)@, pairs@),
            final(self).root() == built(old(self).root(), pairs@),
            old(self).is_balanced() ==> final(self).is_balanced(),
    {
        let ghost all = pairs@;
        proof {
            lemma_entries_finite(self.head);
        }
        for pair in it: pairs
            invariant
                key_order_is_total::<K>(),
                self.wf(),
                old(self).is_balanced() ==> self.is_balanced(),
                it.seq() == all,
                run_fits(old(self).root(), all),
                self@.len() <= old(self)@.len() + it.index(),
                old(self)@.len() + all.len() <= usize::MAX,
                self@ == put_all(old(self)@, all.take(it.index() as int)),
                self.root() == built(old(self).root(), all.take(it.index() as int)),
        {
            let (k, v) = pair;
            proof {
                assert(all.take(it.index() + 1).drop_last() =~= all.take(it.index() as int));
                lemma_run_fits_prefix(old(self).root(), all, it.index() + 1);
            }
            self.insert(k, v);
        }
        proof {
            assert(all.take(all.len() as int) =~= all);
        }
    }

    /// The map that holds `pairs`, put in one after the other.
    pub fn from_iter(pairs: Vec<(K, V)>) -> (map: Self)
        requires
            key_order_is_total::<K>(),
        ensures
            map.wf(),
            map.is_balanced(),
            leaves_room(map.root()),
            map@ == put_all(Map::empty(), pairs@),
            map.root() == built(None, pairs@),
    {
        let mut bst = Self::new();
        proof {
            assert(pairs.len() == pairs@.len());
            assert(bst@.len() == 0);
            lemma_balanced_run_fits(None::<Box<Node<K, V>>>, pairs@);
        }

        bst.extend(pairs);
        proof {
            lemma_entries_finite(bst.head);
            lemma_balanced_leaves_room(bst.head);
        }

        bst
    }
}

} // verus!
