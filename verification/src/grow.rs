//! What insertion makes of a tree, shown on the models: order and pairs on
//! every tree on which it runs, the AVL shape on trees that have it.

use crate::balance::{
    lemma_rebalanced, lemma_rebalanced_keeps_order, lemma_rotated_heights, nearly_balanced,
};
use crate::bound::{lemma_balanced_height_bound, lemma_child_heights, HEIGHT_LIMIT};
use crate::model::{
    built, capped, grown, growth_fits, heights_are_heights, inserted, insertion_fits, leaves_room,
    leftmost, put_all, rebalance_fits, rebalanced, removed, reshaped, run_fits, spliced, with_value,
    without_leftmost,
};
use crate::node::{
    balanced, bst, entries, height, lemma_entries_finite, lemma_size_is_len, Node, NodeRef,
};
use crate::order::{key_order_is_total, lemma_lt_trichotomy, lt};
use crate::path::lemma_descend;
use vstd::prelude::*;

verus! {

/// Replacing the value under a key changes that value and nothing else:
/// not the keys, not the order, not the shape.
pub proof fn lemma_with_value<K: Ord, V>(t: NodeRef<K, V>, key: K, value: V)
    requires
        key_order_is_total::<K>(),
        bst(t),
    ensures
        bst(with_value(t, key, value)),
        height(with_value(t, key, value)) == height(t),
        balanced(with_value(t, key, value)) == balanced(t),
        entries(with_value(t, key, value)) == if entries(t).contains_key(key) {
            entries(t).insert(key, value)
        } else {
            entries(t)
        },
    decreases t,
{
    if let Some(n) = t {
        let w = with_value(t, key, value).unwrap();
        lemma_lt_trichotomy(key, n.key);
        lemma_with_value(n.left, key, value);
        lemma_with_value(n.right, key, value);
        if n.key != key {
            lemma_descend(t, key);
        }
        assert(entries(w.left).dom() =~= entries(n.left).dom());
        assert(entries(w.right).dom() =~= entries(n.right).dom());
        assert forall|k: K| #[trigger] entries(w.left).contains_key(k) implies lt(k, w.key) by {
            assert(entries(n.left).contains_key(k));
        }
        assert forall|k: K| #[trigger] entries(w.right).contains_key(k) implies lt(w.key, k) by {
            assert(entries(n.right).contains_key(k));
        }
        if entries(n.right).contains_key(key) {
            assert(lt(n.key, key));
        }
        if entries(n.left).contains_key(key) {
            assert(lt(key, n.key));
        }
        assert(entries(Some(w)) =~= if entries(t).contains_key(key) {
            entries(t).insert(key, value)
        } else {
            entries(t)
        });
    }
}

/// Adding a leaf for a key that is not held, and rebalancing the path to
/// it, keeps the search-tree order and the AVL shape, adds the pair and
/// nothing else, and makes the tree at most one higher; where the tree
/// grows, its root leans to one side.
pub proof fn lemma_grown<K: Ord, V>(t: NodeRef<K, V>, key: K, value: V)
    requires
        key_order_is_total::<K>(),
        bst(t),
        balanced(t),
        !entries(t).contains_key(key),
        height(t) < HEIGHT_LIMIT,
    ensures
        bst(Some(Box::new(grown(t, key, value)))),
        balanced(Some(Box::new(grown(t, key, value)))),
        entries(Some(Box::new(grown(t, key, value)))) == entries(t).insert(key, value),
        height(t) <= height(Some(Box::new(grown(t, key, value)))) <= height(t) + 1,
        height(Some(Box::new(grown(t, key, value)))) > height(t) >= 1 ==> height(
            grown(t, key, value).left,
        ) != height(grown(t, key, value).right),
    decreases t,
{
    match t {
        None => {
            let g = grown(t, key, value);
            assert(bst(g.left) && bst(g.right));
            assert(balanced(g.left) && balanced(g.right));
            assert(entries(Some(Box::new(g))) =~= entries(t).insert(key, value));
        },
        Some(n) => {
            lemma_lt_trichotomy(key, n.key);
            lemma_child_heights(t);
            lemma_descend(t, key);
            if lt(n.key, key) {
                lemma_grown(n.right, key, value);
                let sub = grown(n.right, key, value);
                let up = Node {
                    left: n.left,
                    right: Some(Box::new(sub)),
                    height: n.height,
                    key: n.key,
                    value: n.value,
                };
                assert forall|k: K| #[trigger] entries(up.right).contains_key(k) implies lt(
                    up.key,
                    k,
                ) by {
                    if k != key {
                        assert(entries(n.right).contains_key(k));
                    }
                }
                assert(bst(Some(Box::new(up))));
                assert(nearly_balanced(up));
                lemma_rebalanced(up);
                assert(entries(Some(Box::new(up))) =~= entries(t).insert(key, value));
            } else {
                lemma_grown(n.left, key, value);
                let sub = grown(n.left, key, value);
                let up = Node {
                    left: Some(Box::new(sub)),
                    right: n.right,
                    height: n.height,
                    key: n.key,
                    value: n.value,
                };
                assert forall|k: K| #[trigger] entries(up.left).contains_key(k) implies lt(
                    k,
                    up.key,
                ) by {
                    if k != key {
                        assert(entries(n.left).contains_key(k));
                    }
                }
                assert(!entries(n.right).contains_key(key));
                assert(bst(Some(Box::new(up))));
                assert(nearly_balanced(up));
                lemma_rebalanced(up);
                assert(entries(Some(Box::new(up))) =~= entries(t).insert(key, value));
            }
        },
    }
}

/// Adding a leaf for a key that is not held keeps the search-tree order and
/// adds the pair and nothing else, on every tree.
pub proof fn lemma_grown_keeps_order<K: Ord, V>(t: NodeRef<K, V>, key: K, value: V)
    requires
        key_order_is_total::<K>(),
        bst(t),
        !entries(t).contains_key(key),
    ensures
        bst(Some(Box::new(grown(t, key, value)))),
        entries(Some(Box::new(grown(t, key, value)))) == entries(t).insert(key, value),
    decreases t,
{
    match t {
        None => {
            let g = grown(t, key, value);
            assert(bst(g.left) && bst(g.right));
            assert(entries(Some(Box::new(g))) =~= entries(t).insert(key, value));
        },
        Some(n) => {
            lemma_lt_trichotomy(key, n.key);
            lemma_descend(t, key);
            if lt(n.key, key) {
                lemma_grown_keeps_order(n.right, key, value);
                let up = Node {
                    left: n.left,
                    right: Some(Box::new(grown(n.right, key, value))),
                    height: n.height,
                    key: n.key,
                    value: n.value,
                };
                assert forall|k: K| #[trigger] entries(up.right).contains_key(k) implies lt(
                    up.key,
                    k,
                ) by {
                    if k != key {
                        assert(entries(n.right).contains_key(k));
                    }
                }
                assert(bst(Some(Box::new(up))));
                lemma_rebalanced_keeps_order(up);
                assert(entries(Some(Box::new(up))) =~= entries(t).insert(key, value));
            } else {
                lemma_grown_keeps_order(n.left, key, value);
                let up = Node {
                    left: Some(Box::new(grown(n.left, key, value))),
                    right: n.right,
                    height: n.height,
                    key: n.key,
                    value: n.value,
                };
                assert forall|k: K| #[trigger] entries(up.left).contains_key(k) implies lt(
                    k,
                    up.key,
                ) by {
                    if k != key {
                        assert(entries(n.left).contains_key(k));
                    }
                }
                assert(!entries(n.right).contains_key(key));
                assert(bst(Some(Box::new(up))));
                lemma_rebalanced_keeps_order(up);
                assert(entries(Some(Box::new(up))) =~= entries(t).insert(key, value));
            }
        },
    }
}

/// An insertion keeps the search-tree order and puts the pair in besides
/// what was held, on every tree; and it keeps the AVL shape of a tree that
/// has it.
pub proof fn lemma_inserted<K: Ord, V>(t: NodeRef<K, V>, key: K, value: V)
    requires
        key_order_is_total::<K>(),
        bst(t),
        entries(t).contains_key(key) || entries(t).len() < usize::MAX,
    ensures
        bst(inserted(t, key, value)),
        entries(inserted(t, key, value)) == entries(t).insert(key, value),
        balanced(t) ==> balanced(inserted(t, key, value)),
{
    if entries(t).contains_key(key) {
        lemma_with_value(t, key, value);
    } else {
        lemma_grown_keeps_order(t, key, value);
        if balanced(t) {
            lemma_size_is_len(t);
            lemma_balanced_height_bound(t);
            lemma_grown(t, key, value);
        }
    }
}

/// A tree in AVL shape whose size fits `usize` takes any insertion.
pub proof fn lemma_balanced_insertion_fits<K: Ord, V>(t: NodeRef<K, V>, key: K, value: V)
    requires
        key_order_is_total::<K>(),
        bst(t),
        balanced(t),
        entries(t).len() <= usize::MAX,
    ensures
        insertion_fits(t, key, value),
{
    lemma_balanced_leaves_room(t);
    lemma_room_insertion_fits(t, key, value);
}

/// A run of insertions keeps the search-tree order and leaves what the
/// pairs, put in one after the other, leave; it keeps the AVL shape of a
/// tree that has it.
pub proof fn lemma_built<K: Ord, V>(t: NodeRef<K, V>, pairs: Seq<(K, V)>)
    requires
        key_order_is_total::<K>(),
        bst(t),
        entries(t).len() + pairs.len() <= usize::MAX,
    ensures
        bst(built(t, pairs)),
        entries(built(t, pairs)) == put_all(entries(t), pairs),
        entries(built(t, pairs)).len() <= entries(t).len() + pairs.len(),
        balanced(t) ==> balanced(built(t, pairs)),
    decreases pairs.len(),
{
    lemma_entries_finite(t);
    if pairs.len() > 0 {
        let before = pairs.drop_last();
        lemma_built(t, before);
        let b = built(t, before);
        lemma_entries_finite(b);
        lemma_inserted(b, pairs.last().0, pairs.last().1);
    }
}

/// A tree in AVL shape takes any run of insertions that leaves its size
/// within `usize`.
pub proof fn lemma_balanced_run_fits<K: Ord, V>(t: NodeRef<K, V>, pairs: Seq<(K, V)>)
    requires
        key_order_is_total::<K>(),
        bst(t),
        balanced(t),
        entries(t).len() + pairs.len() <= usize::MAX,
    ensures
        run_fits(t, pairs),
    decreases pairs.len(),
{
    if pairs.len() > 0 {
        let before = pairs.drop_last();
        lemma_balanced_run_fits(t, before);
        lemma_built(t, before);
        lemma_balanced_insertion_fits(built(t, before), pairs.last().0, pairs.last().1);
    }
}

/// A run of insertions that can be carried out can be carried out up to any
/// of its pairs.
pub proof fn lemma_run_fits_prefix<K: Ord, V>(t: NodeRef<K, V>, pairs: Seq<(K, V)>, n: int)
    requires
        run_fits(t, pairs),
        0 <= n <= pairs.len(),
    ensures
        run_fits(t, pairs.take(n)),
    decreases pairs.len(),
{
    if n == pairs.len() {
        assert(pairs.take(n) =~= pairs);
    } else {
        assert(pairs.drop_last().take(n) =~= pairs.take(n));
        lemma_run_fits_prefix(t, pairs.drop_last(), n);
    }
}

/// Heights that stay below one bound stay below every greater one.
pub proof fn lemma_capped_wider<K, V>(t: NodeRef<K, V>, cap: int, wider: int)
    requires
        capped(t, cap),
        cap <= wider,
    ensures
        capped(t, wider),
    decreases t,
{
    if let Some(n) = t {
        lemma_capped_wider(n.left, cap, wider);
        lemma_capped_wider(n.right, cap, wider);
    }
}

/// A tree in AVL shape caches its true heights, none of which is above the
/// height of the tree.
pub proof fn lemma_balanced_capped<K, V>(t: NodeRef<K, V>)
    requires
        balanced(t),
    ensures
        capped(t, height(t) as int),
    decreases t,
{
    if let Some(n) = t {
        lemma_balanced_capped(n.left);
        lemma_balanced_capped(n.right);
        lemma_capped_wider(n.left, height(n.left) as int, height(t) as int);
        lemma_capped_wider(n.right, height(n.right) as int, height(t) as int);
    }
}

/// Where the heights cached below a node stay a little below `i32::MAX`,
/// the heights that rebalancing reads and sets fit; it raises no cached
/// height by more than two and makes the tree at most one higher.
pub proof fn lemma_rebalance_room<K, V>(n: Node<K, V>, cap: int)
    requires
        capped(n.left, cap),
        capped(n.right, cap),
        0 <= cap < i32::MAX - 2,
    ensures
        rebalance_fits(n),
        capped(Some(Box::new(rebalanced(n))), cap + 2),
        height(Some(Box::new(rebalanced(n)))) <= height(Some(Box::new(n))) + 1,
{
    let set = crate::model::height_set(n);
    lemma_capped_wider(n.left, cap, cap + 2);
    lemma_capped_wider(n.right, cap, cap + 2);
    assert(0 <= crate::node::cached(n.left) <= cap);
    assert(0 <= crate::node::cached(n.right) <= cap);
    assert(height(Some(Box::new(set))) == height(Some(Box::new(n))));
    if let Some(l) = n.left {
        assert(capped(l.left, cap) && capped(l.right, cap));
        lemma_capped_wider(l.left, cap, cap + 2);
        lemma_capped_wider(l.right, cap, cap + 2);
        assert(0 <= crate::node::cached(l.left) <= cap);
        assert(0 <= crate::node::cached(l.right) <= cap);
        if let Some(x) = l.right {
            assert(capped(x.left, cap) && capped(x.right, cap));
            lemma_capped_wider(x.left, cap, cap + 2);
            lemma_capped_wider(x.right, cap, cap + 2);
            assert(0 <= crate::node::cached(x.left) <= cap);
            assert(0 <= crate::node::cached(x.right) <= cap);
        }
    }
    if let Some(r) = n.right {
        assert(capped(r.left, cap) && capped(r.right, cap));
        lemma_capped_wider(r.left, cap, cap + 2);
        lemma_capped_wider(r.right, cap, cap + 2);
        assert(0 <= crate::node::cached(r.left) <= cap);
        assert(0 <= crate::node::cached(r.right) <= cap);
        if let Some(x) = r.left {
            assert(capped(x.left, cap) && capped(x.right, cap));
            lemma_capped_wider(x.left, cap, cap + 2);
            lemma_capped_wider(x.right, cap, cap + 2);
            assert(0 <= crate::node::cached(x.left) <= cap);
            assert(0 <= crate::node::cached(x.right) <= cap);
        }
    }
    let res = rebalanced(n);
    assert(capped(res.left, cap + 2));
    assert(capped(res.right, cap + 2));
    lemma_rotated_heights(set);
}

/// Where the cached heights leave room, the heights that the growth of the
/// tree by a key reads and sets fit; the growth raises no cached height by
/// more than two for each node on the path, and at most doubles the height
/// of the tree, and one.
pub proof fn lemma_growth_room<K: Ord, V>(t: NodeRef<K, V>, key: K, value: V, cap: int)
    requires
        capped(t, cap),
        0 <= cap,
        cap + 2 * height(t) + 2 < i32::MAX,
    ensures
        growth_fits(t, key, value),
        capped(Some(Box::new(grown(t, key, value))), cap + 2 * height(t) + 1),
        height(Some(Box::new(grown(t, key, value)))) <= 2 * height(t) + 1,
    decreases t,
{
    match t {
        None => {
            let g = grown(t, key, value);
            assert(capped(g.left, cap + 1) && capped(g.right, cap + 1));
            assert(height(g.left) == 0 && height(g.right) == 0);
        },
        Some(n) => {
            lemma_child_heights(t);
            if lt(n.key, key) {
                lemma_growth_room(n.right, key, value, cap);
                let sub = grown(n.right, key, value);
                let up = Node {
                    left: n.left,
                    right: Some(Box::new(sub)),
                    height: n.height,
                    key: n.key,
                    value: n.value,
                };
                let c = cap + 2 * height(n.right) + 1;
                lemma_capped_wider(n.left, cap, c);
                lemma_rebalance_room(up, c);
                lemma_capped_wider(
                    Some(Box::new(rebalanced(up))),
                    c + 2,
                    cap + 2 * height(t) + 1,
                );
            } else {
                lemma_growth_room(n.left, key, value, cap);
                let sub = grown(n.left, key, value);
                let up = Node {
                    left: Some(Box::new(sub)),
                    right: n.right,
                    height: n.height,
                    key: n.key,
                    value: n.value,
                };
                let c = cap + 2 * height(n.left) + 1;
                lemma_capped_wider(n.right, cap, c);
                lemma_rebalance_room(up, c);
                lemma_capped_wider(
                    Some(Box::new(rebalanced(up))),
                    c + 2,
                    cap + 2 * height(t) + 1,
                );
            }
        },
    }
}

/// A tree whose cached heights leave room takes every insertion.
pub proof fn lemma_room_insertion_fits<K: Ord, V>(t: NodeRef<K, V>, key: K, value: V)
    requires
        leaves_room(t),
    ensures
        insertion_fits(t, key, value),
{
    let cap = i32::MAX - 2 * height(t) - 3;
    if !entries(t).contains_key(key) {
        if t is Some {
            lemma_growth_room(t, key, value, cap);
        }
    }
}

/// A tree in AVL shape whose size fits `usize` leaves room.
pub proof fn lemma_balanced_leaves_room<K: Ord, V>(t: NodeRef<K, V>)
    requires
        key_order_is_total::<K>(),
        bst(t),
        balanced(t),
        entries(t).len() <= usize::MAX,
    ensures
        leaves_room(t),
{
    lemma_size_is_len(t);
    lemma_balanced_height_bound(t);
    lemma_balanced_capped(t);
    lemma_capped_wider(t, height(t) as int, i32::MAX - 2 * height(t) - 3);
}

/// Taking the leftmost node out of a subtree raises no cached height and
/// does not make the subtree higher; the node taken out has a cached height
/// within the bound.
pub proof fn lemma_without_leftmost_room<K, V>(t: NodeRef<K, V>, cap: int)
    requires
        t is Some,
        capped(t, cap),
    ensures
        capped(without_leftmost(t), cap),
        height(without_leftmost(t)) <= height(t),
        1 <= leftmost(t).height <= cap,
    decreases t,
{
    let n = t.unwrap();
    if n.left is Some {
        lemma_without_leftmost_room(n.left, cap);
    }
}

/// A removal raises no cached height and does not make the tree higher.
pub proof fn lemma_removed_room<K: Ord, V>(t: NodeRef<K, V>, key: K, cap: int)
    requires
        capped(t, cap),
    ensures
        capped(removed(t, key), cap),
        height(removed(t, key)) <= height(t),
    decreases t,
{
    if let Some(n) = t {
        assert(capped(n.left, cap) && capped(n.right, cap));
        if n.key == key {
            if n.left is Some && n.right is Some {
                let r = n.right.unwrap();
                assert(capped(r.left, cap) && capped(r.right, cap));
                assert(1 <= r.height <= cap);
                if r.left is Some {
                    lemma_without_leftmost_room(n.right, cap);
                }
                let up = spliced(*n).unwrap();
                assert(capped(up.left, cap) && capped(up.right, cap));
                assert(height(up.left) == height(n.left));
                assert(height(up.right) <= height(n.right));
            }
            assert(capped(spliced(*n), cap));
        } else if lt(n.key, key) {
            lemma_removed_room(n.right, key, cap);
        } else {
            lemma_removed_room(n.left, key, cap);
        }
    }
}

/// A removal keeps the room that the cached heights leave.
pub proof fn lemma_removed_leaves_room<K: Ord, V>(t: NodeRef<K, V>, key: K)
    requires
        leaves_room(t),
    ensures
        leaves_room(removed(t, key)),
{
    let cap = i32::MAX - 2 * height(t) - 3;
    lemma_removed_room(t, key, cap);
    lemma_capped_wider(removed(t, key), cap, i32::MAX - 2 * height(removed(t, key)) - 3);
}

/// A tree that differs from another in values at most has cached heights
/// within the same bounds, and leaves the same room.
pub proof fn lemma_reshaped_room<K, V>(now: NodeRef<K, V>, then: NodeRef<K, V>, cap: int)
    requires
        reshaped(now, then),
    ensures
        capped(then, cap) == capped(now, cap),
        height(then) == height(now),
    decreases now,
{
    if let Some(n) = now {
        lemma_reshaped_room(n.left, then.unwrap().left, cap);
        lemma_reshaped_room(n.right, then.unwrap().right, cap);
    }
}

/// Replacing a value changes no shape, no key and no cached height.
pub proof fn lemma_with_value_reshaped<K: Ord, V>(t: NodeRef<K, V>, key: K, value: V)
    ensures
        reshaped(t, with_value(t, key, value)),
    decreases t,
{
    if let Some(n) = t {
        lemma_with_value_reshaped(n.left, key, value);
        lemma_with_value_reshaped(n.right, key, value);
        lemma_unchanged_reshaped(n.left);
        lemma_unchanged_reshaped(n.right);
    }
}

/// A tree that has not changed has kept its shape, keys and cached heights.
pub proof fn lemma_unchanged_reshaped<K, V>(t: NodeRef<K, V>)
    ensures
        reshaped(t, t),
    decreases t,
{
    if let Some(n) = t {
        lemma_unchanged_reshaped(n.left);
        lemma_unchanged_reshaped(n.right);
    }
}

/// Rebalancing a node over subtrees whose cached heights are heights, where
/// the heights that it reads and sets fit, leaves cached heights that are
/// heights.
pub proof fn lemma_rebalanced_heights<K, V>(n: Node<K, V>)
    requires
        heights_are_heights(n.left),
        heights_are_heights(n.right),
        rebalance_fits(n),
    ensures
        heights_are_heights(Some(Box::new(rebalanced(n)))),
{
    let cap = i32::MAX as int;
    if let Some(l) = n.left {
        assert(capped(l.left, cap) && capped(l.right, cap));
        if let Some(x) = l.right {
            assert(capped(x.left, cap) && capped(x.right, cap));
        }
    }
    if let Some(r) = n.right {
        assert(capped(r.left, cap) && capped(r.right, cap));
        if let Some(x) = r.left {
            assert(capped(x.left, cap) && capped(x.right, cap));
        }
    }
    let res = rebalanced(n);
    assert(capped(res.left, cap));
    assert(capped(res.right, cap));
}

/// The growth of a tree by a key, where the heights that it reads and sets
/// fit, leaves cached heights that are heights.
pub proof fn lemma_grown_heights<K: Ord, V>(t: NodeRef<K, V>, key: K, value: V)
    requires
        heights_are_heights(t),
        growth_fits(t, key, value),
    ensures
        heights_are_heights(Some(Box::new(grown(t, key, value)))),
    decreases t,
{
    match t {
        None => {
            let g = grown(t, key, value);
            assert(capped(g.left, i32::MAX as int) && capped(g.right, i32::MAX as int));
        },
        Some(n) => {
            if lt(n.key, key) {
                lemma_grown_heights(n.right, key, value);
                lemma_rebalanced_heights(
                    Node {
                        left: n.left,
                        right: Some(Box::new(grown(n.right, key, value))),
                        height: n.height,
                        key: n.key,
                        value: n.value,
                    },
                );
            } else {
                lemma_grown_heights(n.left, key, value);
                lemma_rebalanced_heights(
                    Node {
                        left: Some(Box::new(grown(n.left, key, value))),
                        right: n.right,
                        height: n.height,
                        key: n.key,
                        value: n.value,
                    },
                );
            }
        },
    }
}

/// A removal leaves cached heights that are heights.
pub proof fn lemma_removed_heights<K: Ord, V>(t: NodeRef<K, V>, key: K)
    requires
        heights_are_heights(t),
    ensures
        heights_are_heights(removed(t, key)),
{
    lemma_removed_room(t, key, i32::MAX as int);
}

/// A tree that differs from another in values at most has cached heights
/// that are heights if the other has.
pub proof fn lemma_reshaped_heights<K, V>(now: NodeRef<K, V>, then: NodeRef<K, V>)
    requires
        reshaped(now, then),
    ensures
        heights_are_heights(then) == heights_are_heights(now),
        leaves_room(then) == leaves_room(now),
{
    lemma_reshaped_room(now, then, i32::MAX as int);
    lemma_reshaped_room(now, then, i32::MAX - 2 * height(now) - 3);
}

} // verus!
