//! How tall a tree in AVL shape can be: its height is logarithmic in the
//! number of its nodes, so the cached heights of a tree that fits in memory
//! stay far below `i32::MAX`.

use crate::node::{balanced, height, size, NodeRef};
use vstd::arithmetic::power2::{lemma2_to64, lemma2_to64_rest, lemma_pow2_unfold, pow2};
use vstd::prelude::*;

verus! {

/// No tree in AVL shape whose number of nodes fits in `usize` is as tall as
/// this.
pub const HEIGHT_LIMIT: i32 = 130;

/// The least number of nodes of a tree in AVL shape of height `h`.
pub open spec fn min_size(h: nat) -> nat
    decreases h,
{
    if h == 0 {
        0
    } else if h == 1 {
        1
    } else {
        1 + min_size((h - 1) as nat) + min_size((h - 2) as nat)
    }
}

/// A taller tree in AVL shape needs at least as many nodes.
pub proof fn lemma_min_size_monotonic(a: nat, b: nat)
    requires
        a <= b,
    ensures
        min_size(a) <= min_size(b),
    decreases b,
{
    if a < b {
        lemma_min_size_monotonic(a, (b - 1) as nat);
    }
}

/// Two more levels at least double the number of nodes.
pub proof fn lemma_min_size_doubles(k: nat)
    ensures
        min_size(2 * k) + 1 >= pow2(k),
    decreases k,
{
    if k == 0 {
        lemma2_to64();
    } else {
        lemma_min_size_doubles((k - 1) as nat);
        lemma_min_size_monotonic((2 * k - 2) as nat, (2 * k - 1) as nat);
        lemma_pow2_unfold(k);
    }
}

/// A tree in AVL shape has at least [`min_size`] of its height in nodes.
pub proof fn lemma_balanced_size<K, V>(t: NodeRef<K, V>)
    requires
        balanced(t),
    ensures
        size(t) >= min_size(height(t)),
    decreases t,
{
    if let Some(n) = t {
        lemma_balanced_size(n.left);
        lemma_balanced_size(n.right);
        let h = height(t);
        if h >= 2 {
            if height(n.left) >= height(n.right) {
                lemma_min_size_monotonic((h - 2) as nat, height(n.right));
            } else {
                lemma_min_size_monotonic((h - 2) as nat, height(n.left));
            }
        }
    }
}

/// A tree in AVL shape whose number of nodes fits in `usize` is lower than
/// [`HEIGHT_LIMIT`].
pub proof fn lemma_balanced_height_bound<K, V>(t: NodeRef<K, V>)
    requires
        balanced(t),
        size(t) <= usize::MAX,
    ensures
        height(t) < HEIGHT_LIMIT,
{
    if height(t) >= 130 {
        lemma_balanced_size(t);
        lemma_min_size_monotonic(130, height(t));
        lemma_min_size_doubles(65);
        lemma2_to64_rest();
        lemma_pow2_unfold(65);
    }
}

/// No subtree is taller than the tree it is part of.
pub proof fn lemma_child_heights<K, V>(t: NodeRef<K, V>)
    requires
        t is Some,
    ensures
        height(t.unwrap().left) < height(t),
        height(t.unwrap().right) < height(t),
        size(t.unwrap().left) < size(t),
        size(t.unwrap().right) < size(t),
{
}

} // verus!
