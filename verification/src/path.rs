//! The path of a descent: the nodes that it came through, each with the side
//! on which it went on, and what putting another subtree at its end makes of
//! the whole tree.

use crate::model::{grown, rebalanced, removed, with_value, without_leftmost};
use crate::node::{balanced, bst, entries, height, Node, NodeRef};
use crate::order::{key_order_is_total, lemma_lt_trichotomy, lt};
use vstd::prelude::*;

verus! {

/// The side of a node on which a descent went on.
pub enum Subtree {
    Left,
    Right,
}

/// A node recorded on the way down, together with the side that was taken.
pub type Step<K, V> = (Box<Node<K, V>>, Subtree);

/// `step` is the root of `whole` with the child on the taken side detached,
/// that child was `child`, and `key` belongs on that side.
pub open spec fn step_of<K: Ord, V>(
    step: Step<K, V>,
    whole: NodeRef<K, V>,
    child: NodeRef<K, V>,
    key: K,
) -> bool {
    &&& whole is Some
    &&& step.0.key == whole.unwrap().key
    &&& step.0.value == whole.unwrap().value
    &&& step.0.height == whole.unwrap().height
    &&& match step.1 {
        Subtree::Left => {
            &&& step.0.left is None
            &&& step.0.right == whole.unwrap().right
            &&& child == whole.unwrap().left
            &&& lt(key, step.0.key)
        },
        Subtree::Right => {
            &&& step.0.right is None
            &&& step.0.left == whole.unwrap().left
            &&& child == whole.unwrap().right
            &&& lt(step.0.key, key)
        },
    }
}

/// The subtree at depth `depth` of a descent, where `origs` lists the
/// subtrees that the descent came through, the whole tree first.
pub open spec fn at_depth<K, V>(origs: Seq<NodeRef<K, V>>, depth: nat) -> NodeRef<K, V> {
    origs[depth as int]
}

/// `step` with `sub` attached on the side that was taken.
pub open spec fn reattached<K, V>(step: Step<K, V>, sub: NodeRef<K, V>) -> Node<K, V> {
    match step.1 {
        Subtree::Left => Node {
            left: sub,
            right: step.0.right,
            height: step.0.height,
            key: step.0.key,
            value: step.0.value,
        },
        Subtree::Right => Node {
            left: step.0.left,
            right: sub,
            height: step.0.height,
            key: step.0.key,
            value: step.0.value,
        },
    }
}

/// Below a node in search-tree order, `key` is found on the side on which it
/// belongs, where it is found at all.
pub proof fn lemma_descend<K: Ord, V>(whole: NodeRef<K, V>, key: K)
    requires
        key_order_is_total::<K>(),
        whole is Some,
        bst(whole),
        key != whole.unwrap().key,
    ensures
        lt(key, whole.unwrap().key) ==> (entries(whole).contains_key(key) <==> entries(
            whole.unwrap().left,
        ).contains_key(key)),
        lt(key, whole.unwrap().key) && entries(whole).contains_key(key) ==> entries(whole)[key]
            == entries(whole.unwrap().left)[key],
        lt(whole.unwrap().key, key) ==> (entries(whole).contains_key(key) <==> entries(
            whole.unwrap().right,
        ).contains_key(key)),
        lt(whole.unwrap().key, key) && entries(whole).contains_key(key) ==> entries(whole)[key]
            == entries(whole.unwrap().right)[key],
{
    let n = whole.unwrap();
    lemma_lt_trichotomy(key, n.key);
    if entries(n.right).contains_key(key) {
        assert(lt(n.key, key));
    }
    if entries(n.left).contains_key(key) {
        assert(lt(key, n.key));
    }
}

/// The two maps hold the same pairs, but possibly for `key`.
pub open spec fn agree_but_at<K, V>(a: Map<K, V>, b: Map<K, V>, key: K) -> bool {
    forall|k: K|
        k != key ==> (#[trigger] a.contains_key(k) <==> b.contains_key(k)) && (a.contains_key(k)
            ==> a[k] == b[k])
}

/// The tree that has `sub` at the end of the path `steps`.
pub open spec fn plug<K, V>(steps: Seq<Step<K, V>>, sub: NodeRef<K, V>) -> NodeRef<K, V>
    decreases steps.len(),
{
    if steps.len() == 0 {
        sub
    } else {
        plug(steps.drop_last(), Some(Box::new(reattached(steps.last(), sub))))
    }
}

/// `steps` is the path of a descent for `key` through `origs`, the whole
/// tree first, each of them in search-tree order.
pub open spec fn path_of<K: Ord, V>(
    steps: Seq<Step<K, V>>,
    origs: Seq<NodeRef<K, V>>,
    key: K,
) -> bool {
    &&& origs.len() == steps.len() + 1
    &&& forall|i: int|
        0 <= i < steps.len() ==> step_of(#[trigger] steps[i], origs[i], origs[i + 1], key)
    &&& forall|i: int| 0 <= i < origs.len() ==> bst(#[trigger] origs[i])
}

/// One more step extends a path by one.
pub proof fn lemma_plug_push<K, V>(steps: Seq<Step<K, V>>, step: Step<K, V>, sub: NodeRef<K, V>)
    ensures
        plug(steps.push(step), sub) == plug(steps, Some(Box::new(reattached(step, sub)))),
{
    assert(steps.push(step).drop_last() =~= steps);
}

/// Putting at the end of a path a subtree that differs from what was there
/// at most in `key` gives a tree in search-tree order that differs from the
/// whole at most in `key`, and holds for `key` what the subtree holds.
pub proof fn lemma_plug_order<K: Ord, V>(
    steps: Seq<Step<K, V>>,
    origs: Seq<NodeRef<K, V>>,
    sub: NodeRef<K, V>,
    key: K,
)
    requires
        key_order_is_total::<K>(),
        path_of(steps, origs, key),
        bst(sub),
        agree_but_at(entries(sub), entries(origs.last()), key),
    ensures
        bst(plug(steps, sub)),
        agree_but_at(entries(plug(steps, sub)), entries(origs[0]), key),
        entries(plug(steps, sub)).contains_key(key) <==> entries(sub).contains_key(key),
        entries(sub).contains_key(key) ==> entries(plug(steps, sub))[key] == entries(sub)[key],
        sub is Some ==> plug(steps, sub) is Some,
    decreases steps.len(),
{
    if steps.len() > 0 {
        let step = steps.last();
        let n = steps.len() - 1;
        let whole = origs[n];
        let child = origs[n + 1];
        assert(step_of(steps[n], origs[n], origs[n + 1], key));
        assert(bst(whole));
        let node = whole.unwrap();
        let up = reattached(step, sub);
        lemma_lt_trichotomy(key, node.key);
        assert forall|k: K| #[trigger] entries(up.left).contains_key(k) implies lt(k, up.key) by {
            if step.1 is Left && k != key {
                assert(entries(child).contains_key(k));
            }
        }
        assert forall|k: K| #[trigger] entries(up.right).contains_key(k) implies lt(up.key, k) by {
            if step.1 is Right && k != key {
                assert(entries(child).contains_key(k));
            }
        }
        assert(bst(Some(Box::new(up))));
        assert(!entries(node.left).contains_key(key) || step.1 is Left) by {
            if entries(node.left).contains_key(key) {
                lemma_lt_trichotomy(key, node.key);
            }
        }
        assert(!entries(node.right).contains_key(key) || step.1 is Right) by {
            if entries(node.right).contains_key(key) {
                lemma_lt_trichotomy(key, node.key);
            }
        }
        assert(agree_but_at(entries(Some(Box::new(up))), entries(whole), key)) by {
            let put = entries(Some(Box::new(up)));
            assert forall|k: K| k != key implies (#[trigger] put.contains_key(k) <==> entries(
                whole,
            ).contains_key(k)) && (put.contains_key(k) ==> put[k] == entries(whole)[k]) by {
                assert(entries(sub).contains_key(k) <==> entries(child).contains_key(k));
            }
        }
        let shorter = steps.drop_last();
        let above = origs.drop_last();
        assert(path_of(shorter, above, key)) by {
            assert forall|i: int| 0 <= i < shorter.len() implies step_of(
                #[trigger] shorter[i],
                above[i],
                above[i + 1],
                key,
            ) by {
                assert(step_of(steps[i], origs[i], origs[i + 1], key));
            }
            assert forall|i: int| 0 <= i < above.len() implies bst(#[trigger] above[i]) by {
                assert(bst(origs[i]));
            }
        }
        assert(above.last() == whole);
        lemma_plug_order(shorter, above, Some(Box::new(up)), key);
    }
}

/// Putting at the end of a path a subtree of the height of what was there
/// keeps the height of the whole, and the whole is in AVL shape exactly if it
/// was, provided the same holds of the subtree.
pub proof fn lemma_plug_shape<K: Ord, V>(
    steps: Seq<Step<K, V>>,
    origs: Seq<NodeRef<K, V>>,
    sub: NodeRef<K, V>,
    key: K,
)
    requires
        path_of(steps, origs, key),
        height(sub) == height(origs.last()),
        balanced(sub) <==> balanced(origs.last()),
    ensures
        height(plug(steps, sub)) == height(origs[0]),
        balanced(plug(steps, sub)) <==> balanced(origs[0]),
    decreases steps.len(),
{
    if steps.len() > 0 {
        let step = steps.last();
        let n = steps.len() - 1;
        let whole = origs[n];
        assert(step_of(steps[n], origs[n], origs[n + 1], key));
        let up = reattached(step, sub);
        let shorter = steps.drop_last();
        let above = origs.drop_last();
        assert(path_of(shorter, above, key)) by {
            assert forall|i: int| 0 <= i < shorter.len() implies step_of(
                #[trigger] shorter[i],
                above[i],
                above[i + 1],
                key,
            ) by {
                assert(step_of(steps[i], origs[i], origs[i + 1], key));
            }
            assert forall|i: int| 0 <= i < above.len() implies bst(#[trigger] above[i]) by {
                assert(bst(origs[i]));
            }
        }
        assert(above.last() == whole);
        lemma_plug_shape(shorter, above, Some(Box::new(up)), key);
    }
}

/// Where a change `f` of a subtree goes down a path step by step, putting
/// the changed end of the path back gives the changed whole.
pub proof fn lemma_plug_follows<K: Ord, V>(
    steps: Seq<Step<K, V>>,
    origs: Seq<NodeRef<K, V>>,
    f: spec_fn(NodeRef<K, V>) -> NodeRef<K, V>,
)
    requires
        origs.len() == steps.len() + 1,
        forall|i: int|
            0 <= i < steps.len() ==> f(origs[i]) == Some(
                Box::new(reattached(#[trigger] steps[i], f(origs[i + 1]))),
            ),
    ensures
        plug(steps, f(origs.last())) == f(origs[0]),
    decreases steps.len(),
{
    if steps.len() > 0 {
        let n = steps.len() - 1;
        let shorter = steps.drop_last();
        let above = origs.drop_last();
        assert(f(origs[n]) == Some(Box::new(reattached(steps[n], f(origs[n + 1])))));
        assert forall|i: int| 0 <= i < shorter.len() implies f(above[i]) == Some(
            Box::new(reattached(#[trigger] shorter[i], f(above[i + 1]))),
        ) by {
            assert(f(origs[i]) == Some(Box::new(reattached(steps[i], f(origs[i + 1])))));
        }
        lemma_plug_follows(shorter, above, f);
        assert(above.last() == origs[n]);
    }
}

/// A recorded node with its child put back is the whole again.
pub proof fn lemma_same_step<K: Ord, V>(
    step: Step<K, V>,
    whole: NodeRef<K, V>,
    child: NodeRef<K, V>,
    key: K,
)
    requires
        step_of(step, whole, child, key),
    ensures
        whole == Some(Box::new(reattached(step, child))),
{
}

/// Replacing the value under `key` goes down the path of `key`.
pub proof fn lemma_with_value_step<K: Ord, V>(
    step: Step<K, V>,
    whole: NodeRef<K, V>,
    child: NodeRef<K, V>,
    key: K,
    value: V,
)
    requires
        key_order_is_total::<K>(),
        step_of(step, whole, child, key),
    ensures
        with_value(whole, key, value) == Some(
            Box::new(reattached(step, with_value(child, key, value))),
        ),
{
    lemma_lt_trichotomy(key, whole.unwrap().key);
}

/// Adding a leaf for `key` goes down the path of `key`, and rebalances each
/// node of the path on the way back.
pub proof fn lemma_grown_step<K: Ord, V>(
    step: Step<K, V>,
    whole: NodeRef<K, V>,
    child: NodeRef<K, V>,
    key: K,
    value: V,
)
    requires
        key_order_is_total::<K>(),
        step_of(step, whole, child, key),
    ensures
        grown(whole, key, value) == rebalanced(
            reattached(step, Some(Box::new(grown(child, key, value)))),
        ),
{
    lemma_lt_trichotomy(key, whole.unwrap().key);
}

/// Splicing the node of `key` out goes down the path of `key`.
pub proof fn lemma_removed_step<K: Ord, V>(
    step: Step<K, V>,
    whole: NodeRef<K, V>,
    child: NodeRef<K, V>,
    key: K,
)
    requires
        key_order_is_total::<K>(),
        step_of(step, whole, child, key),
    ensures
        removed(whole, key) == Some(Box::new(reattached(step, removed(child, key)))),
{
    lemma_lt_trichotomy(key, whole.unwrap().key);
}

/// Taking the leftmost node out goes down the left side.
pub proof fn lemma_without_leftmost_step<K: Ord, V>(
    step: Step<K, V>,
    whole: NodeRef<K, V>,
    child: NodeRef<K, V>,
    key: K,
)
    requires
        step_of(step, whole, child, key),
        step.1 is Left,
        child is Some,
    ensures
        without_leftmost(whole) == Some(Box::new(reattached(step, without_leftmost(child)))),
{
}

} // verus!
