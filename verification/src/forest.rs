//! Sequences of trees, as a queue holds them while a tree is walked level by
//! level, and the level order that such a walk produces.

use crate::node::{size, Node, NodeRef};
use vstd::prelude::*;

verus! {

/// The root of a subtree as a forest: one tree, or none.
pub open spec fn as_forest<K, V>(t: NodeRef<K, V>) -> Seq<Node<K, V>> {
    match t {
        None => Seq::empty(),
        Some(n) => seq![*n],
    }
}

/// The children of a node, the left one first.
pub open spec fn kids<K, V>(n: Node<K, V>) -> Seq<Node<K, V>> {
    as_forest(n.left) + as_forest(n.right)
}

/// The number of nodes in all trees of a forest.
pub open spec fn forest_size<K, V>(f: Seq<Node<K, V>>) -> nat
    decreases f.len(),
{
    if f.len() == 0 {
        0
    } else {
        size(Some(Box::new(f.first()))) + forest_size(f.drop_first())
    }
}

/// The children of the roots of a forest, from left to right: the roots of
/// the next level.
pub open spec fn next_level<K, V>(f: Seq<Node<K, V>>) -> Seq<Node<K, V>>
    decreases f.len(),
{
    if f.len() == 0 {
        Seq::empty()
    } else {
        kids(f.first()) + next_level(f.drop_first())
    }
}

/// The pairs at the roots of a forest, from left to right.
pub open spec fn pairs_of<K, V>(f: Seq<Node<K, V>>) -> Seq<(K, V)> {
    Seq::new(f.len(), |i: int| (f[i].key, f[i].value))
}

/// The pairs of a forest level by level: the roots from left to right, then
/// the level order of their children.
pub open spec fn level_order<K, V>(f: Seq<Node<K, V>>) -> Seq<(K, V)>
    decreases forest_size(f),
    via level_order_decreases::<K, V>
{
    if f.len() == 0 {
        Seq::empty()
    } else {
        pairs_of(f) + level_order(next_level(f))
    }
}

#[via_fn]
proof fn level_order_decreases<K, V>(f: Seq<Node<K, V>>) {
    if f.len() != 0 {
        lemma_next_level_size(f);
    }
}

/// The size of a forest is the sum of the sizes of its parts.
pub proof fn lemma_forest_size_concat<K, V>(a: Seq<Node<K, V>>, b: Seq<Node<K, V>>)
    ensures
        forest_size(a + b) == forest_size(a) + forest_size(b),
    decreases a.len(),
{
    if a.len() == 0 {
        assert(a + b =~= b);
    } else {
        assert((a + b).first() == a.first());
        assert((a + b).drop_first() =~= a.drop_first() + b);
        lemma_forest_size_concat(a.drop_first(), b);
    }
}

/// The next level of a forest is made of the next levels of its parts.
pub proof fn lemma_next_level_concat<K, V>(a: Seq<Node<K, V>>, b: Seq<Node<K, V>>)
    ensures
        next_level(a + b) == next_level(a) + next_level(b),
    decreases a.len(),
{
    if a.len() == 0 {
        assert(a + b =~= b);
        assert(next_level(a) + next_level(b) =~= next_level(b));
    } else {
        assert((a + b).first() == a.first());
        assert((a + b).drop_first() =~= a.drop_first() + b);
        lemma_next_level_concat(a.drop_first(), b);
        assert(kids(a.first()) + (next_level(a.drop_first()) + next_level(b)) =~= (kids(a.first())
            + next_level(a.drop_first())) + next_level(b));
    }
}

/// The size of one tree as a forest, and of the children of one node.
pub proof fn lemma_forest_size_one<K, V>(n: Node<K, V>)
    ensures
        forest_size(seq![n]) == size(Some(Box::new(n))),
        forest_size(kids(n)) + 1 == size(Some(Box::new(n))),
        forest_size(as_forest(n.left)) == size(n.left),
        forest_size(as_forest(n.right)) == size(n.right),
{
    assert(seq![n].drop_first() =~= Seq::<Node<K, V>>::empty());
    assert(forest_size(seq![n].drop_first()) == 0);
    if let Some(l) = n.left {
        assert(seq![*l].drop_first() =~= Seq::<Node<K, V>>::empty());
        assert(forest_size(seq![*l].drop_first()) == 0);
        assert(forest_size(seq![*l]) == size(n.left));
    } else {
        assert(forest_size(as_forest(n.left)) == 0);
    }
    if let Some(r) = n.right {
        assert(seq![*r].drop_first() =~= Seq::<Node<K, V>>::empty());
        assert(forest_size(seq![*r].drop_first()) == 0);
        assert(forest_size(seq![*r]) == size(n.right));
    } else {
        assert(forest_size(as_forest(n.right)) == 0);
    }
    lemma_forest_size_concat(as_forest(n.left), as_forest(n.right));
    assert(size(Some(Box::new(n))) == 1 + size(n.left) + size(n.right));
}

/// The next level holds all nodes of a forest but its roots.
pub proof fn lemma_next_level_size<K, V>(f: Seq<Node<K, V>>)
    ensures
        forest_size(next_level(f)) + f.len() == forest_size(f),
    decreases f.len(),
{
    if f.len() != 0 {
        lemma_next_level_size(f.drop_first());
        lemma_forest_size_one(f.first());
        lemma_forest_size_concat(kids(f.first()), next_level(f.drop_first()));
    }
}

/// The pairs at the roots of a forest are those of its parts.
pub proof fn lemma_pairs_of_concat<K, V>(a: Seq<Node<K, V>>, b: Seq<Node<K, V>>)
    ensures
        pairs_of(a + b) == pairs_of(a) + pairs_of(b),
{
    assert(pairs_of(a + b) =~= pairs_of(a) + pairs_of(b));
}

/// The level order lists every node once.
pub proof fn lemma_level_order_len<K, V>(f: Seq<Node<K, V>>)
    ensures
        level_order(f).len() == forest_size(f),
    decreases forest_size(f),
{
    if f.len() != 0 {
        lemma_next_level_size(f);
        lemma_level_order_len(next_level(f));
    }
}

/// What a queue does to the level order: the roots of the front part `a` come
/// first, and then the level order of the rest with the children of `a`
/// queued behind it.
pub proof fn lemma_level_order_shift<K, V>(a: Seq<Node<K, V>>, b: Seq<Node<K, V>>)
    ensures
        level_order(a + b) == pairs_of(a) + level_order(b + next_level(a)),
    decreases forest_size(a + b),
{
    let whole = a + b;
    let queued = b + next_level(a);
    if whole.len() == 0 {
        assert(a =~= Seq::<Node<K, V>>::empty());
        assert(queued =~= Seq::<Node<K, V>>::empty());
        assert(pairs_of(a) + level_order(queued) =~= level_order(whole));
    } else {
        lemma_next_level_size(whole);
        lemma_next_level_concat(a, b);
        lemma_pairs_of_concat(a, b);
        lemma_level_order_shift(next_level(a), next_level(b));
        if queued.len() == 0 {
            assert(b =~= Seq::<Node<K, V>>::empty());
            assert(next_level(a) =~= Seq::<Node<K, V>>::empty());
            assert(next_level(b) =~= Seq::<Node<K, V>>::empty());
            assert(next_level(a) + next_level(b) =~= Seq::<Node<K, V>>::empty());
            assert(level_order(whole) =~= pairs_of(a) + level_order(queued));
        } else {
            lemma_next_level_concat(b, next_level(a));
            lemma_pairs_of_concat(b, next_level(a));
            assert(level_order(whole) =~= pairs_of(a) + level_order(queued));
        }
    }
}

/// Taking the front tree off a queue yields its root pair; the level order
/// that is left is that of the rest with the children queued behind it.
pub proof fn lemma_level_order_step<K, V>(queue: Seq<Node<K, V>>)
    requires
        queue.len() > 0,
    ensures
        level_order(queue).len() > 0,
        level_order(queue)[0] == (queue[0].key, queue[0].value),
        level_order(queue).skip(1) == level_order(queue.drop_first() + kids(queue[0])),
{
    let front = seq![queue[0]];
    assert(queue =~= front + queue.drop_first());
    lemma_level_order_shift(front, queue.drop_first());
    assert(front.drop_first() =~= Seq::<Node<K, V>>::empty());
    assert(next_level(front.drop_first()) =~= Seq::<Node<K, V>>::empty());
    assert(next_level(front) =~= kids(queue[0]));
    assert(pairs_of(front) =~= seq![(queue[0].key, queue[0].value)]);
    assert(level_order(queue).skip(1) =~= level_order(queue.drop_first() + kids(queue[0])));
}

/// The nodes at depth `depth` of a subtree, from left to right.
pub open spec fn tree_level<K, V>(t: NodeRef<K, V>, depth: nat) -> Seq<Node<K, V>>
    decreases depth,
{
    match t {
        None => Seq::empty(),
        Some(n) => if depth == 0 {
            seq![*n]
        } else {
            tree_level(n.left, (depth - 1) as nat) + tree_level(n.right, (depth - 1) as nat)
        },
    }
}

/// The nodes at depth `depth` of the trees of a forest, tree by tree.
pub open spec fn forest_level<K, V>(f: Seq<Node<K, V>>, depth: nat) -> Seq<Node<K, V>>
    decreases f.len(),
{
    if f.len() == 0 {
        Seq::empty()
    } else {
        tree_level(Some(Box::new(f.first())), depth) + forest_level(f.drop_first(), depth)
    }
}

/// The roots that a walk by levels has before it after `depth` levels.
pub open spec fn nth_level<K, V>(f: Seq<Node<K, V>>, depth: nat) -> Seq<Node<K, V>>
    decreases depth,
{
    if depth == 0 {
        f
    } else {
        nth_level(next_level(f), (depth - 1) as nat)
    }
}

/// The pairs of the first `count` levels of a forest, level by level.
pub open spec fn first_levels<K, V>(f: Seq<Node<K, V>>, count: nat) -> Seq<(K, V)>
    decreases count,
{
    if count == 0 {
        Seq::empty()
    } else {
        first_levels(f, (count - 1) as nat) + pairs_of(nth_level(f, (count - 1) as nat))
    }
}

/// A level of a forest is made of the levels of its parts.
pub proof fn lemma_forest_level_concat<K, V>(a: Seq<Node<K, V>>, b: Seq<Node<K, V>>, depth: nat)
    ensures
        forest_level(a + b, depth) == forest_level(a, depth) + forest_level(b, depth),
    decreases a.len(),
{
    if a.len() == 0 {
        assert(a + b =~= b);
        assert(forest_level(a, depth) + forest_level(b, depth) =~= forest_level(b, depth));
    } else {
        assert((a + b).first() == a.first());
        assert((a + b).drop_first() =~= a.drop_first() + b);
        lemma_forest_level_concat(a.drop_first(), b, depth);
        assert(forest_level(a + b, depth) =~= forest_level(a, depth) + forest_level(b, depth));
    }
}

/// The level of one subtree as a forest is its level as a tree.
pub proof fn lemma_forest_level_one<K, V>(t: NodeRef<K, V>, depth: nat)
    ensures
        forest_level(as_forest(t), depth) == tree_level(t, depth),
{
    if t is Some {
        assert(as_forest(t).drop_first() =~= Seq::<Node<K, V>>::empty());
        assert(forest_level(as_forest(t).drop_first(), depth) =~= Seq::<Node<K, V>>::empty());
        assert(forest_level(as_forest(t), depth) =~= tree_level(t, depth));
    }
}

/// The roots of a forest are its level 0.
pub proof fn lemma_forest_level_zero<K, V>(f: Seq<Node<K, V>>)
    ensures
        forest_level(f, 0) == f,
    decreases f.len(),
{
    if f.len() != 0 {
        lemma_forest_level_zero(f.drop_first());
        assert(forest_level(f, 0) =~= f);
    } else {
        assert(forest_level(f, 0) =~= f);
    }
}

/// One level further down a forest is the same level of its children.
pub proof fn lemma_forest_level_down<K, V>(f: Seq<Node<K, V>>, depth: nat)
    ensures
        forest_level(f, depth + 1) == forest_level(next_level(f), depth),
    decreases f.len(),
{
    if f.len() != 0 {
        let n = f.first();
        lemma_forest_level_down(f.drop_first(), depth);
        lemma_forest_level_concat(kids(n), next_level(f.drop_first()), depth);
        lemma_forest_level_concat(as_forest(n.left), as_forest(n.right), depth);
        lemma_forest_level_one(n.left, depth);
        lemma_forest_level_one(n.right, depth);
        assert(forest_level(f, depth + 1) =~= forest_level(next_level(f), depth));
    } else {
        assert(forest_level(f, depth + 1) =~= forest_level(next_level(f), depth));
    }
}

/// After `depth` levels a walk by levels has before it the nodes at that
/// depth, from left to right.
pub proof fn lemma_nth_level<K, V>(f: Seq<Node<K, V>>, depth: nat)
    ensures
        nth_level(f, depth) == forest_level(f, depth),
    decreases depth,
{
    if depth == 0 {
        lemma_forest_level_zero(f);
    } else {
        lemma_nth_level(next_level(f), (depth - 1) as nat);
        lemma_forest_level_down(f, (depth - 1) as nat);
    }
}

/// The level order is the first levels one after the other, and then the
/// level order of what lies below them.
pub proof fn lemma_level_order_by_levels<K, V>(f: Seq<Node<K, V>>, count: nat)
    ensures
        level_order(f) == first_levels(f, count) + level_order(nth_level(f, count)),
    decreases count,
{
    if count == 0 {
        assert(level_order(f) =~= first_levels(f, count) + level_order(nth_level(f, count)));
    } else {
        let before = (count - 1) as nat;
        lemma_level_order_by_levels(f, before);
        let here = nth_level(f, before);
        lemma_nth_level_step(f, before);
        if here.len() == 0 {
            assert(next_level(here) =~= Seq::<Node<K, V>>::empty());
            assert(pairs_of(here) =~= Seq::<(K, V)>::empty());
        }
        assert(level_order(here) =~= pairs_of(here) + level_order(next_level(here)));
        assert(level_order(f) =~= first_levels(f, count) + level_order(nth_level(f, count)));
    }
}

/// One level further down is the next level of the level before.
pub proof fn lemma_nth_level_step<K, V>(f: Seq<Node<K, V>>, depth: nat)
    ensures
        nth_level(f, depth + 1) == next_level(nth_level(f, depth)),
    decreases depth,
{
    assert(nth_level(f, depth + 1) == nth_level(next_level(f), depth));
    if depth > 0 {
        lemma_nth_level_step(next_level(f), (depth - 1) as nat);
        assert(nth_level(f, depth) == nth_level(next_level(f), (depth - 1) as nat));
    } else {
        assert(nth_level(next_level(f), 0) == next_level(f));
        assert(nth_level(f, 0) == f);
    }
}

} // verus!
