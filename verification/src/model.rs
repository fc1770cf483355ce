//! What the operations that change the tree make of it, node for node.

use crate::balance::{rotated_left, rotated_right, taller, with_left_rotated, with_right_rotated};
use crate::node::{cached, entries, height, Node, NodeRef};
use crate::order::lt;
use vstd::prelude::*;

verus! {

/// `then` is `now` with other values at most: the same shape, and at each
/// place the same key and the same cached height.
pub open spec fn reshaped<K, V>(now: NodeRef<K, V>, then: NodeRef<K, V>) -> bool
    decreases now,
{
    match now {
        None => then is None,
        Some(n) => {
            &&& then is Some
            &&& then.unwrap().key == n.key
            &&& then.unwrap().height == n.height
            &&& reshaped(n.left, then.unwrap().left)
            &&& reshaped(n.right, then.unwrap().right)
        },
    }
}

/// `t` with the value under `key` replaced by `value`; `t` itself where it
/// does not hold `key`. Nothing else changes.
pub open spec fn with_value<K: Ord, V>(t: NodeRef<K, V>, key: K, value: V) -> NodeRef<K, V>
    decreases t,
{
    match t {
        None => None,
        Some(n) => Some(
            Box::new(
                if n.key == key {
                    Node { left: n.left, right: n.right, height: n.height, key: n.key, value }
                } else if lt(n.key, key) {
                    Node {
                        left: n.left,
                        right: with_value(n.right, key, value),
                        height: n.height,
                        key: n.key,
                        value: n.value,
                    }
                } else {
                    Node {
                        left: with_value(n.left, key, value),
                        right: n.right,
                        height: n.height,
                        key: n.key,
                        value: n.value,
                    }
                },
            ),
        ),
    }
}

/// The balance factor that a node computes from the heights cached in its
/// children.
pub open spec fn balance_of<K, V>(n: Node<K, V>) -> int {
    cached(n.right) - cached(n.left)
}

/// `n` with its height set from the heights cached in its children.
pub open spec fn height_set<K, V>(n: Node<K, V>) -> Node<K, V> {
    Node {
        left: n.left,
        right: n.right,
        height: (1 + taller(cached(n.left), cached(n.right))) as i32,
        key: n.key,
        value: n.value,
    }
}

/// `n` with its height set from the heights cached in its children and,
/// where the balance factor then is not within one of zero, rotated, as far
/// as the child that a rotation brings to the top is there:
///
/// - at a balance factor of -2, to the right, after a left rotation of the
///   left child unless that child leans left;
/// - at any other, to the left, after a right rotation of the right child
///   unless that child leans right.
///
/// Where the child is missing, which only heights that removals left stale
/// can bring about, the node comes back with its height set and nothing
/// else changed.
pub open spec fn rebalanced<K, V>(n: Node<K, V>) -> Node<K, V> {
    let set = height_set(n);
    if -2 < balance_of(set) < 2 {
        set
    } else if balance_of(set) == -2 {
        if set.left is Some && balance_of(*set.left.unwrap()) < 0 {
            rotated_right(set)
        } else if set.left is Some && set.left.unwrap().right is Some {
            rotated_right(with_left_rotated(set))
        } else {
            set
        }
    } else if set.right is Some && balance_of(*set.right.unwrap()) > 0 {
        rotated_left(set)
    } else if set.right is Some && set.right.unwrap().left is Some {
        rotated_left(with_right_rotated(set))
    } else {
        set
    }
}

/// The heights cached in the children of `n` are heights that one can be
/// added to.
pub open spec fn heights_fit<K, V>(n: Node<K, V>) -> bool {
    0 <= cached(n.left) < i32::MAX && 0 <= cached(n.right) < i32::MAX
}

/// A right rotation about `root` can be made: the left child that comes to
/// the top is there, and the heights that the rotation sets fit `i32`.
pub open spec fn turns_right<K, V>(root: Node<K, V>) -> bool {
    &&& root.left is Some
    &&& 0 <= cached(root.left.unwrap().left) < i32::MAX - 1
    &&& 0 <= cached(root.left.unwrap().right) < i32::MAX - 1
    &&& 0 <= cached(root.right) < i32::MAX - 1
}

/// A left rotation about `root` can be made: the right child that comes to
/// the top is there, and the heights that the rotation sets fit `i32`.
pub open spec fn turns_left<K, V>(root: Node<K, V>) -> bool {
    &&& root.right is Some
    &&& 0 <= cached(root.right.unwrap().left) < i32::MAX - 1
    &&& 0 <= cached(root.right.unwrap().right) < i32::MAX - 1
    &&& 0 <= cached(root.left) < i32::MAX - 1
}

/// The heights that [`rebalanced`] reads and sets on `n` fit `i32`: those
/// cached in the children are not negative and one can be added to them,
/// and so are those that each rotation it makes reads. Nothing is asked of
/// the shape.
pub open spec fn rebalance_fits<K, V>(n: Node<K, V>) -> bool {
    let set = height_set(n);
    &&& heights_fit(n)
    &&& if -2 < balance_of(set) < 2 {
        true
    } else if balance_of(set) == -2 {
        set.left is Some ==> heights_fit(*set.left.unwrap()) && if balance_of(
            *set.left.unwrap(),
        ) < 0 {
            turns_right(set)
        } else {
            set.left.unwrap().right is Some ==> turns_left(*set.left.unwrap()) && turns_right(
                with_left_rotated(set),
            )
        }
    } else {
        set.right is Some ==> heights_fit(*set.right.unwrap()) && if balance_of(
            *set.right.unwrap(),
        ) > 0 {
            turns_left(set)
        } else {
            set.right.unwrap().left is Some ==> turns_right(*set.right.unwrap()) && turns_left(
                with_right_rotated(set),
            )
        }
    }
}

/// `t` with a leaf for `key` and `value` added where `key` belongs, and
/// every node on the way to it rebalanced, the lowest first. Meant for a `t`
/// that does not hold `key`.
pub open spec fn grown<K: Ord, V>(t: NodeRef<K, V>, key: K, value: V) -> Node<K, V>
    decreases t,
{
    match t {
        None => Node { left: None, right: None, height: 1, key, value },
        Some(n) => if lt(n.key, key) {
            rebalanced(
                Node {
                    left: n.left,
                    right: Some(Box::new(grown(n.right, key, value))),
                    height: n.height,
                    key: n.key,
                    value: n.value,
                },
            )
        } else {
            rebalanced(
                Node {
                    left: Some(Box::new(grown(n.left, key, value))),
                    right: n.right,
                    height: n.height,
                    key: n.key,
                    value: n.value,
                },
            )
        },
    }
}

/// The heights that [`grown`] reads and sets fit `i32`: at every node on
/// the way to the place of `key`, once the subtree below it has grown
/// ([`rebalance_fits`]). This is a limit of the machine, as the room in
/// `usize` for the length is: a tree in AVL shape of a size that fits
/// `usize` meets it, and so does every tree whose cached heights leave room
/// ([`leaves_room`]).
pub open spec fn growth_fits<K: Ord, V>(t: NodeRef<K, V>, key: K, value: V) -> bool
    decreases t,
{
    match t {
        None => true,
        Some(n) => if lt(n.key, key) {
            growth_fits(n.right, key, value) && rebalance_fits(
                Node {
                    left: n.left,
                    right: Some(Box::new(grown(n.right, key, value))),
                    height: n.height,
                    key: n.key,
                    value: n.value,
                },
            )
        } else {
            growth_fits(n.left, key, value) && rebalance_fits(
                Node {
                    left: Some(Box::new(grown(n.left, key, value))),
                    right: n.right,
                    height: n.height,
                    key: n.key,
                    value: n.value,
                },
            )
        },
    }
}

/// The heights that [`inserted`] reads and sets fit `i32`: `key` is held,
/// so that no height is touched, or the growth fits.
pub open spec fn insertion_fits<K: Ord, V>(t: NodeRef<K, V>, key: K, value: V) -> bool {
    entries(t).contains_key(key) || growth_fits(t, key, value)
}

/// Every height that is cached in `t` is at least 1 and at most `cap`.
pub open spec fn capped<K, V>(t: NodeRef<K, V>, cap: int) -> bool
    decreases t,
{
    match t {
        None => true,
        Some(n) => 1 <= n.height <= cap && capped(n.left, cap) && capped(n.right, cap),
    }
}

/// Every height that is cached in `t` is a height: at least 1, as that of a
/// leaf is.
pub open spec fn heights_are_heights<K, V>(t: NodeRef<K, V>) -> bool {
    capped(t, i32::MAX as int)
}

/// The heights that are cached in `t` leave room in `i32` for an insertion:
/// each is at least 1, and none comes within twice the height of the tree,
/// and three, of `i32::MAX`. An insertion raises no cached height by more
/// than two for each node on its path.
///
/// The empty tree leaves room, a tree in AVL shape whose size fits `usize`
/// does, and a removal, a change of a value and a mutable traversal keep
/// the room that there is.
pub open spec fn leaves_room<K, V>(t: NodeRef<K, V>) -> bool {
    capped(t, i32::MAX - 2 * height(t) - 3)
}

/// What an insertion makes of `t`: where `t` holds `key`, only the value
/// under it changes; where it does not, a leaf is added and the path to it
/// rebalanced.
pub open spec fn inserted<K: Ord, V>(t: NodeRef<K, V>, key: K, value: V) -> NodeRef<K, V> {
    if entries(t).contains_key(key) {
        with_value(t, key, value)
    } else {
        Some(Box::new(grown(t, key, value)))
    }
}

/// What a run of insertions makes of `t`, the first of `pairs` put in first.
pub open spec fn built<K: Ord, V>(t: NodeRef<K, V>, pairs: Seq<(K, V)>) -> NodeRef<K, V>
    decreases pairs.len(),
{
    if pairs.len() == 0 {
        t
    } else {
        inserted(built(t, pairs.drop_last()), pairs.last().0, pairs.last().1)
    }
}

/// The heights that [`built`] reads and sets fit `i32`: those of each
/// insertion, into what the pairs before it have made of `t`.
pub open spec fn run_fits<K: Ord, V>(t: NodeRef<K, V>, pairs: Seq<(K, V)>) -> bool
    decreases pairs.len(),
{
    if pairs.len() == 0 {
        true
    } else {
        run_fits(t, pairs.drop_last()) && insertion_fits(
            built(t, pairs.drop_last()),
            pairs.last().0,
            pairs.last().1,
        )
    }
}

/// The leftmost node of a subtree.
pub open spec fn leftmost<K, V>(t: NodeRef<K, V>) -> Node<K, V>
    recommends
        t is Some,
    decreases t,
{
    match t {
        None => arbitrary(),
        Some(n) => if n.left is None {
            *n
        } else {
            leftmost(n.left)
        },
    }
}

/// A subtree without its leftmost node: the right subtree of that node has
/// moved up into its place.
pub open spec fn without_leftmost<K, V>(t: NodeRef<K, V>) -> NodeRef<K, V>
    decreases t,
{
    match t {
        None => None,
        Some(n) => if n.left is None {
            n.right
        } else {
            Some(
                Box::new(
                    Node {
                        left: without_leftmost(n.left),
                        right: n.right,
                        height: n.height,
                        key: n.key,
                        value: n.value,
                    },
                ),
            )
        },
    }
}

/// What takes the place of a node that is spliced out: nothing where it has
/// no child; its one child; its right child, with the left subtree handed
/// over, where that child has no left child; else its successor, the
/// leftmost node of its right subtree, with the left subtree and what is
/// left of the right one. The node that moves up keeps its cached height.
pub open spec fn spliced<K, V>(n: Node<K, V>) -> NodeRef<K, V> {
    if n.right is None && n.left is None {
        None
    } else if n.right is None {
        n.left
    } else if n.left is None {
        n.right
    } else if n.right.unwrap().left is None {
        Some(
            Box::new(
                Node {
                    left: n.left,
                    right: n.right.unwrap().right,
                    height: n.right.unwrap().height,
                    key: n.right.unwrap().key,
                    value: n.right.unwrap().value,
                },
            ),
        )
    } else {
        Some(
            Box::new(
                Node {
                    left: n.left,
                    right: without_leftmost(n.right),
                    height: leftmost(n.right).height,
                    key: leftmost(n.right).key,
                    value: leftmost(n.right).value,
                },
            ),
        )
    }
}

/// `t` with the node that holds `key` spliced out; `t` itself where it does
/// not hold `key`. No height is set anew.
pub open spec fn removed<K: Ord, V>(t: NodeRef<K, V>, key: K) -> NodeRef<K, V>
    decreases t,
{
    match t {
        None => None,
        Some(n) => if n.key == key {
            spliced(*n)
        } else if lt(n.key, key) {
            Some(
                Box::new(
                    Node {
                        left: n.left,
                        right: removed(n.right, key),
                        height: n.height,
                        key: n.key,
                        value: n.value,
                    },
                ),
            )
        } else {
            Some(
                Box::new(
                    Node {
                        left: removed(n.left, key),
                        right: n.right,
                        height: n.height,
                        key: n.key,
                        value: n.value,
                    },
                ),
            )
        },
    }
}

/// The map that is left when `pairs` have been put into `start` one after
/// the other, a later pair replacing an earlier one with the same key.
pub open spec fn put_all<K, V>(start: Map<K, V>, pairs: Seq<(K, V)>) -> Map<K, V>
    decreases pairs.len(),
{
    if pairs.len() == 0 {
        start
    } else {
        put_all(start, pairs.drop_last()).insert(pairs.last().0, pairs.last().1)
    }
}

/// The keys that occur in `pairs`.
pub open spec fn keys_of<K, V>(pairs: Seq<(K, V)>) -> Set<K> {
    Set::new(|k: K| exists|i: int| 0 <= i < pairs.len() && (#[trigger] pairs[i]).0 == k)
}

} // verus!
