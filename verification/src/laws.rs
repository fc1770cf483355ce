//! What holds of the map across its operations: how the listings relate to
//! the map from keys to values, and what a run of insertions leaves behind.

use crate::forest::{
    as_forest, first_levels, kids, lemma_forest_level_one, lemma_forest_size_one,
    lemma_level_order_by_levels, lemma_level_order_len, lemma_next_level_size, lemma_nth_level,
    level_order, next_level, nth_level, pairs_of, tree_level,
};
use crate::bound::{
    lemma_balanced_height_bound, lemma_balanced_size, lemma_min_size_doubles,
    lemma_min_size_monotonic, HEIGHT_LIMIT,
};
use crate::map::BSTMap;
use crate::grow::{
    lemma_balanced_insertion_fits, lemma_balanced_leaves_room, lemma_balanced_run_fits, lemma_built,
    lemma_reshaped_heights, lemma_room_insertion_fits, lemma_unchanged_reshaped,
};
use crate::model::{built, insertion_fits, keys_of, leaves_room, put_all, reshaped, run_fits};
use crate::node::balanced;
use crate::node::{bst, entries, height, inorder, lemma_size_is_len, size, Node, NodeRef};
use vstd::arithmetic::power2::pow2;
use crate::order::{key_order_is_total, lemma_lt_transitive, lemma_lt_trichotomy, lt};
use vstd::prelude::*;
use vstd::seq_lib::lemma_multiset_commutative;

verus! {

/// The keys of `s` grow strictly from each pair to the next.
pub open spec fn strictly_increasing<K: Ord, V>(s: Seq<(K, V)>) -> bool {
    forall|i: int, j: int| #![trigger s[i], s[j]] 0 <= i < j < s.len() ==> lt(s[i].0, s[j].0)
}

/// `s` lists the pairs of `m`: each pair of `s` is one of `m`, and each key
/// of `m` occurs in `s` with its value.
pub open spec fn lists<K, V>(s: Seq<(K, V)>, m: Map<K, V>) -> bool {
    &&& forall|i: int| 0 <= i < s.len() ==> m.contains_pair((#[trigger] s[i]).0, s[i].1)
    &&& forall|k: K| #[trigger] m.contains_key(k) ==> s.contains((k, m[k]))
}

/// The in-order listing of a subtree in search-tree order is strictly
/// increasing, lists the pairs of the subtree, and has one pair per node.
pub proof fn lemma_inorder<K: Ord, V>(t: NodeRef<K, V>)
    requires
        key_order_is_total::<K>(),
        bst(t),
    ensures
        strictly_increasing(inorder(t)),
        lists(inorder(t), entries(t)),
        inorder(t).len() == size(t),
    decreases t,
{
    if let Some(n) = t {
        lemma_inorder(n.left);
        lemma_inorder(n.right);
        let l = inorder(n.left);
        let r = inorder(n.right);
        let s = inorder(t);
        let a = l.len() as int;
        lemma_lt_trichotomy(n.key, n.key);
        assert(s.len() == a + 1 + r.len());
        assert(s[a] == (n.key, n.value));
        assert forall|i: int| 0 <= i < a implies s[i] == l[i] && entries(n.left).contains_key(
            s[i].0,
        ) && lt(s[i].0, n.key) && !entries(n.right).contains_key(s[i].0) by {
            assert(entries(n.left).contains_pair(l[i].0, l[i].1));
            lemma_lt_trichotomy(l[i].0, n.key);
            if entries(n.right).contains_key(l[i].0) {
                assert(lt(n.key, l[i].0));
            }
        }
        assert forall|i: int| a < i < s.len() implies s[i] == r[i - a - 1] && entries(
            n.right,
        ).contains_key(s[i].0) && lt(n.key, s[i].0) by {
            assert(entries(n.right).contains_pair(r[i - a - 1].0, r[i - a - 1].1));
            lemma_lt_trichotomy(r[i - a - 1].0, n.key);
        }
        assert forall|i: int, j: int| #![trigger s[i], s[j]] 0 <= i < j < s.len() implies lt(
            s[i].0,
            s[j].0,
        ) by {
            if j < a {
                assert(lt(l[i].0, l[j].0));
            } else if i > a {
                assert(lt(r[i - a - 1].0, r[j - a - 1].0));
            } else if i < a && j > a {
                lemma_lt_transitive(s[i].0, n.key, s[j].0);
            }
        }
        assert forall|i: int| 0 <= i < s.len() implies entries(t).contains_pair(
            (#[trigger] s[i]).0,
            s[i].1,
        ) by {
            if i < a {
                assert(entries(n.left).contains_pair(l[i].0, l[i].1));
            } else if i > a {
                assert(entries(n.right).contains_pair(r[i - a - 1].0, r[i - a - 1].1));
                lemma_lt_trichotomy(r[i - a - 1].0, n.key);
            }
        }
        assert forall|k: K| #[trigger] entries(t).contains_key(k) implies s.contains(
            (k, entries(t)[k]),
        ) by {
            if k == n.key {
                assert(s[a] == (k, entries(t)[k]));
            } else if entries(n.right).contains_key(k) {
                let j = choose|j: int| 0 <= j < r.len() && r[j] == (k, entries(n.right)[k]);
                assert(s[a + 1 + j] == (k, entries(t)[k]));
            } else {
                assert(entries(n.left).contains_key(k));
                let j = choose|j: int| 0 <= j < l.len() && l[j] == (k, entries(n.left)[k]);
                assert(s[j] == (k, entries(t)[k]));
            }
        }
    }
}

/// The pairs of a forest tree by tree, each tree in order.
pub open spec fn forest_inorder<K, V>(f: Seq<Node<K, V>>) -> Seq<(K, V)>
    decreases f.len(),
{
    if f.len() == 0 {
        Seq::empty()
    } else {
        inorder(Some(Box::new(f.first()))) + forest_inorder(f.drop_first())
    }
}

/// The listing of a forest is made of the listings of its parts.
pub proof fn lemma_forest_inorder_concat<K, V>(a: Seq<Node<K, V>>, b: Seq<Node<K, V>>)
    ensures
        forest_inorder(a + b) == forest_inorder(a) + forest_inorder(b),
    decreases a.len(),
{
    if a.len() == 0 {
        assert(a + b =~= b);
        assert(forest_inorder(a) + forest_inorder(b) =~= forest_inorder(b));
    } else {
        assert((a + b).first() == a.first());
        assert((a + b).drop_first() =~= a.drop_first() + b);
        lemma_forest_inorder_concat(a.drop_first(), b);
        assert(forest_inorder(a + b) =~= forest_inorder(a) + forest_inorder(b));
    }
}

/// The listing of one subtree as a forest is its in-order listing.
pub proof fn lemma_forest_inorder_one<K, V>(t: NodeRef<K, V>)
    ensures
        forest_inorder(as_forest(t)) == inorder(t),
{
    if let Some(n) = t {
        assert(as_forest(t).drop_first() =~= Seq::<Node<K, V>>::empty());
        assert(forest_inorder(as_forest(t).drop_first()) =~= Seq::<(K, V)>::empty());
        assert(forest_inorder(as_forest(t)) =~= inorder(t));
    }
}

/// The pairs of a forest are those at its roots and those of the next level.
pub proof fn lemma_forest_inorder_by_level<K, V>(f: Seq<Node<K, V>>)
    ensures
        forest_inorder(f).to_multiset() == pairs_of(f).to_multiset().add(
            forest_inorder(next_level(f)).to_multiset(),
        ),
    decreases f.len(),
{
    broadcast use vstd::multiset::group_multiset_axioms;

    if f.len() == 0 {
        let none = Seq::<(K, V)>::empty();
        assert(pairs_of(f) =~= none);
        assert(forest_inorder(next_level(f)) =~= none);
        assert(none + none =~= none);
        lemma_multiset_commutative(none, none);
        assert(forest_inorder(f).to_multiset() =~= pairs_of(f).to_multiset().add(
            forest_inorder(next_level(f)).to_multiset(),
        ));
    } else {
        let n = f.first();
        let rest = f.drop_first();
        let pair = seq![(n.key, n.value)];
        lemma_forest_inorder_by_level(rest);
        lemma_forest_inorder_concat(kids(n), next_level(rest));
        lemma_forest_inorder_concat(as_forest(n.left), as_forest(n.right));
        lemma_forest_inorder_one(n.left);
        lemma_forest_inorder_one(n.right);
        assert(pairs_of(f) =~= pair + pairs_of(rest));
        assert(inorder(Some(Box::new(n))) =~= inorder(n.left) + pair + inorder(n.right));
        lemma_multiset_commutative(inorder(Some(Box::new(n))), forest_inorder(rest));
        lemma_multiset_commutative(inorder(n.left) + pair, inorder(n.right));
        lemma_multiset_commutative(inorder(n.left), pair);
        lemma_multiset_commutative(pair, pairs_of(rest));
        lemma_multiset_commutative(forest_inorder(kids(n)), forest_inorder(next_level(rest)));
        lemma_multiset_commutative(inorder(n.left), inorder(n.right));
        assert(forest_inorder(f).to_multiset() =~= pairs_of(f).to_multiset().add(
            forest_inorder(next_level(f)).to_multiset(),
        ));
    }
}

/// The level order of a forest holds the pairs of its trees, each as often as
/// the trees do.
pub proof fn lemma_level_order_permutes<K, V>(f: Seq<Node<K, V>>)
    ensures
        level_order(f).to_multiset() == forest_inorder(f).to_multiset(),
    decreases crate::forest::forest_size(f),
{
    broadcast use vstd::multiset::group_multiset_axioms;

    if f.len() != 0 {
        lemma_next_level_size(f);
        lemma_level_order_permutes(next_level(f));
        lemma_forest_inorder_by_level(f);
        lemma_multiset_commutative(pairs_of(f), level_order(next_level(f)));
    } else {
        assert(forest_inorder(f) =~= level_order(f));
    }
}

/// A run of insertions leaves the keys that were put in, and no others.
pub proof fn lemma_put_all_keys<K, V>(pairs: Seq<(K, V)>)
    ensures
        put_all(Map::empty(), pairs).dom() == keys_of(pairs),
        put_all(Map::<K, V>::empty(), pairs).dom().finite(),
        put_all(Map::<K, V>::empty(), pairs).len() <= pairs.len(),
    decreases pairs.len(),
{
    if pairs.len() == 0 {
        assert(put_all(Map::<K, V>::empty(), pairs).dom() =~= keys_of(pairs));
    } else {
        let before = pairs.drop_last();
        lemma_put_all_keys(before);
        assert forall|k: K| keys_of(pairs).contains(k) <==> keys_of(before).insert(
            pairs.last().0,
        ).contains(k) by {
            if keys_of(pairs).contains(k) {
                let i = choose|i: int| 0 <= i < pairs.len() && (#[trigger] pairs[i]).0 == k;
                if i < before.len() {
                    assert(before[i].0 == k);
                }
            }
            if keys_of(before).contains(k) {
                let i = choose|i: int| 0 <= i < before.len() && (#[trigger] before[i]).0 == k;
                assert(pairs[i].0 == k);
            }
            if k == pairs.last().0 {
                assert(pairs[pairs.len() - 1].0 == k);
            }
        }
        assert(put_all(Map::<K, V>::empty(), pairs).dom() =~= keys_of(pairs));
    }
}

/// Every tree that insertions alone have built is in search-tree order and
/// in AVL shape, and holds what was put in, each key with the value that was
/// put in last; and every such run of insertions can be carried out.
pub proof fn law_insertions_keep_avl_shape<K: Ord, V>(pairs: Seq<(K, V)>)
    requires
        key_order_is_total::<K>(),
        pairs.len() <= usize::MAX,
    ensures
        run_fits(None::<Box<Node<K, V>>>, pairs),
        bst(built(None, pairs)),
        balanced(built(None, pairs)),
        entries(built(None, pairs)) == put_all(Map::empty(), pairs),
{
    let none = None::<Box<Node<K, V>>>;
    assert(entries(none).len() == 0);
    lemma_balanced_run_fits(none, pairs);
    lemma_built(none, pairs);
}

/// A map in AVL shape leaves room in its cached heights.
pub proof fn law_avl_shape_leaves_room<K: Ord, V>(map: BSTMap<K, V>)
    requires
        key_order_is_total::<K>(),
        map.wf(),
        map.is_balanced(),
    ensures
        leaves_room(map.root()),
{
    lemma_balanced_leaves_room(map.root());
}

/// A map whose cached heights leave room takes every insertion: what
/// `insert` asks of the heights holds of it.
pub proof fn law_room_admits_insertion<K: Ord, V>(map: BSTMap<K, V>, key: K, value: V)
    requires
        leaves_room(map.root()),
    ensures
        insertion_fits(map.root(), key, value),
{
    lemma_room_insertion_fits(map.root(), key, value);
}

/// A map in AVL shape takes every insertion: what `insert` asks of the
/// heights holds of it.
pub proof fn law_avl_shape_admits_insertion<K: Ord, V>(map: BSTMap<K, V>, key: K, value: V)
    requires
        key_order_is_total::<K>(),
        map.wf(),
        map.is_balanced(),
    ensures
        insertion_fits(map.root(), key, value),
{
    lemma_balanced_insertion_fits(map.root(), key, value);
}

/// A map in AVL shape takes every run of insertions that leaves its size
/// within `usize`: what `extend` asks of the heights holds of it.
pub proof fn law_avl_shape_admits_extension<K: Ord, V>(map: BSTMap<K, V>, pairs: Seq<(K, V)>)
    requires
        key_order_is_total::<K>(),
        map.wf(),
        map.is_balanced(),
        map@.len() + pairs.len() <= usize::MAX,
    ensures
        run_fits(map.root(), pairs),
{
    lemma_balanced_run_fits(map.root(), pairs);
}

/// A tree that differs from another in values at most has its height, its
/// size, its keys in their order, and the AVL shape and the search-tree
/// order if the other has them.
pub proof fn lemma_reshaped<K: Ord, V>(now: NodeRef<K, V>, then: NodeRef<K, V>)
    requires
        reshaped(now, then),
    ensures
        height(then) == height(now),
        size(then) == size(now),
        balanced(then) == balanced(now),
        entries(then).dom() == entries(now).dom(),
        bst(then) == bst(now),
        inorder(then).len() == inorder(now).len(),
        forall|i: int|
            0 <= i < inorder(now).len() ==> (#[trigger] inorder(then)[i]).0 == inorder(now)[i].0,
    decreases now,
{
    if let Some(n) = now {
        let t = then.unwrap();
        lemma_reshaped(n.left, t.left);
        lemma_reshaped(n.right, t.right);
        assert(entries(then).dom() =~= entries(now).dom());
        let a = inorder(n.left).len() as int;
        assert forall|i: int| 0 <= i < inorder(now).len() implies (#[trigger] inorder(then)[i]).0
            == inorder(now)[i].0 by {
            if i < a {
                assert(inorder(then)[i] == inorder(t.left)[i]);
                assert(inorder(now)[i] == inorder(n.left)[i]);
            } else if i > a {
                assert(inorder(then)[i] == inorder(t.right)[i - a - 1]);
                assert(inorder(now)[i] == inorder(n.right)[i - a - 1]);
            }
        }
    } else {
        assert(entries(then).dom() =~= entries(now).dom());
    }
}

/// A tree that has not changed has kept its shape, keys and cached heights.
/// This is what holds of a subtree that a mutable traversal still held when
/// it was dropped.
pub proof fn law_unchanged_is_reshaped<K, V>(t: NodeRef<K, V>)
    ensures
        reshaped(t, t),
{
    lemma_unchanged_reshaped(t);
}

/// A map whose tree has kept its shape, keys and cached heights through a
/// mutable traversal, and whose stored length is as before, is well formed
/// if it was, is in AVL shape exactly if it was, and holds the same keys.
pub proof fn law_walk_keeps_the_map<K: Ord, V>(before: BSTMap<K, V>, after: BSTMap<K, V>)
    requires
        reshaped(before.root(), after.root()),
        after.stored_len() == before.stored_len(),
    ensures
        before.wf() ==> after.wf(),
        after.is_balanced() == before.is_balanced(),
        leaves_room(after.root()) == leaves_room(before.root()),
        after@.dom() == before@.dom(),
        after.inorder().len() == before.inorder().len(),
        forall|i: int|
            0 <= i < before.inorder().len() ==> (#[trigger] after.inorder()[i]).0
                == before.inorder()[i].0,
{
    lemma_reshaped(before.root(), after.root());
    lemma_reshaped_heights(before.root(), after.root());
}

/// After a run of insertions into the empty map, the map holds as many pairs
/// as distinct keys were put in: a key put in again replaces, it does not
/// add.
pub proof fn law_len_counts_distinct_keys<K: Ord, V>(map: BSTMap<K, V>, pairs: Seq<(K, V)>)
    requires
        map.wf(),
        map@ == put_all(Map::empty(), pairs),
    ensures
        map@.len() == keys_of(pairs).len(),
        keys_of(pairs).finite(),
{
    lemma_put_all_keys(pairs);
}

/// After a run of insertions, each key holds the value of the last pair
/// that was put in with it.
pub proof fn law_last_write_wins<K, V>(start: Map<K, V>, pairs: Seq<(K, V)>, last: int)
    requires
        0 <= last < pairs.len(),
        forall|i: int| last < i < pairs.len() ==> (#[trigger] pairs[i]).0 != pairs[last].0,
    ensures
        put_all(start, pairs).contains_key(pairs[last].0),
        put_all(start, pairs)[pairs[last].0] == pairs[last].1,
    decreases pairs.len(),
{
    if last < pairs.len() - 1 {
        let before = pairs.drop_last();
        assert(pairs[pairs.len() - 1].0 != pairs[last].0);
        assert forall|i: int| last < i < before.len() implies (#[trigger] before[i]).0
            != before[last].0 by {
            assert(pairs[i].0 != pairs[last].0);
        }
        law_last_write_wins(start, before, last);
    }
}

/// The in-order listing of a map is strictly increasing in the keys, lists
/// exactly the pairs of the map, and is as long as the map is large.
pub proof fn law_inorder_is_sorted<K: Ord, V>(map: BSTMap<K, V>)
    requires
        key_order_is_total::<K>(),
        map.wf(),
    ensures
        strictly_increasing(map.inorder()),
        lists(map.inorder(), map@),
        map.inorder().len() == map@.len(),
{
    lemma_inorder(map.head);
    lemma_size_is_len(map.head);
}

/// The breadth-first listing of a map is the in-order listing in another
/// order: it holds the same pairs, each once, and is as long as the map is
/// large.
pub proof fn law_breadth_first_permutes<K: Ord, V>(map: BSTMap<K, V>)
    requires
        key_order_is_total::<K>(),
        map.wf(),
    ensures
        map.breadth_first().to_multiset() == map.inorder().to_multiset(),
        map.breadth_first().len() == map@.len(),
{
    lemma_level_order_permutes(as_forest(map.head));
    lemma_forest_inorder_one(map.head);
    lemma_level_order_len(as_forest(map.head));
    lemma_size_is_len(map.head);
    if let Some(n) = map.head {
        lemma_forest_size_one(*n);
    } else {
        assert(crate::forest::forest_size(as_forest(map.head)) == 0);
    }
}

/// A map in AVL shape is low: its height is logarithmic in the number of
/// its pairs, and so a lookup, an insertion or a removal goes through few
/// nodes.
pub proof fn law_balanced_height_is_logarithmic<K: Ord, V>(map: BSTMap<K, V>)
    requires
        key_order_is_total::<K>(),
        map.wf(),
        map.is_balanced(),
    ensures
        pow2(height(map.root()) / 2) <= map@.len() + 1,
        height(map.root()) < HEIGHT_LIMIT,
{
    let h = height(map.root());
    lemma_size_is_len(map.root());
    lemma_balanced_size(map.root());
    lemma_min_size_doubles(h / 2);
    lemma_min_size_monotonic(2 * (h / 2), h);
    lemma_balanced_height_bound(map.root());
}

/// The breadth-first listing starts with the pair at the root.
pub proof fn law_breadth_first_starts_at_root<K: Ord, V>(map: BSTMap<K, V>)
    requires
        map.root() is Some,
    ensures
        map.breadth_first().len() > 0,
        map.breadth_first()[0] == (map.root().unwrap().key, map.root().unwrap().value),
{
    let f = as_forest(map.root());
    assert(pairs_of(f)[0] == (map.root().unwrap().key, map.root().unwrap().value));
    assert(level_order(f) == pairs_of(f) + level_order(next_level(f)));
}

/// The breadth-first listing goes through the tree level by level, and
/// through each level from left to right: its first `count` levels are the
/// pairs of the nodes at depth 0, then of those at depth 1, and so on, each
/// depth in the order in which its nodes stand in the tree.
pub proof fn law_breadth_first_goes_by_levels<K: Ord, V>(map: BSTMap<K, V>, count: nat)
    ensures
        map.breadth_first() == first_levels(as_forest(map.root()), count) + level_order(
            nth_level(as_forest(map.root()), count),
        ),
        forall|depth: nat|
            #[trigger] nth_level(as_forest(map.root()), depth) == tree_level(map.root(), depth),
{
    lemma_level_order_by_levels(as_forest(map.root()), count);
    assert forall|depth: nat| #[trigger]
        nth_level(as_forest(map.root()), depth) == tree_level(map.root(), depth) by {
        lemma_nth_level(as_forest(map.root()), depth);
        lemma_forest_level_one(map.root(), depth);
    }
}

/// A map that was filled by a run of insertions and is then listed in order
/// gives the pairs sorted by key, one for each key that was put in, each
/// with the value that was put in last.
pub proof fn law_round_trip<K: Ord, V>(map: BSTMap<K, V>, pairs: Seq<(K, V)>)
    requires
        key_order_is_total::<K>(),
        map.wf(),
        map@ == put_all(Map::empty(), pairs),
    ensures
        strictly_increasing(map.inorder()),
        lists(map.inorder(), put_all(Map::empty(), pairs)),
        map.inorder().len() == keys_of(pairs).len(),
{
    law_inorder_is_sorted(map);
    lemma_put_all_keys(pairs);
}

} // verus!
