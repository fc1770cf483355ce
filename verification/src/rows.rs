//! The tree laid out in rows, one per level, with a place for every node
//! that a full tree would have: what a dump of the tree prints.

use crate::bound::lemma_child_heights;
use crate::map::BSTMap;
use crate::node::{height, Node, NodeRef};
use vstd::arithmetic::power2::{lemma2_to64, lemma_pow2_unfold, pow2};
use vstd::prelude::*;

verus! {

/// The subtree at place `index` of level `depth`, counted from the left
/// and from 0: the left child of the subtree at place `index / 2` of the
/// level above where `index` is even, the right child where it is odd, and
/// nothing where there is nothing above.
pub open spec fn slot<K, V>(t: NodeRef<K, V>, depth: nat, index: nat) -> NodeRef<K, V>
    decreases depth,
{
    if depth == 0 {
        t
    } else {
        match slot(t, (depth - 1) as nat, index / 2) {
            None => None,
            Some(n) => if index % 2 == 0 {
                n.left
            } else {
                n.right
            },
        }
    }
}

/// The subtree that an entry of a row stands for.
pub open spec fn shown<K, V>(entry: Option<&Node<K, V>>) -> NodeRef<K, V> {
    match entry {
        None => None,
        Some(node) => Some(Box::new(*node)),
    }
}

/// `row` is level `depth` of `t`, place by place.
pub open spec fn is_level<K, V>(
    row: Seq<Option<&Node<K, V>>>,
    t: NodeRef<K, V>,
    depth: nat,
) -> bool {
    &&& row.len() == pow2(depth)
    &&& forall|i: int| 0 <= i < row.len() ==> shown(#[trigger] row[i]) == slot(t, depth, i as nat)
}

/// A row holds a node.
pub open spec fn holds_node<K, V>(row: Seq<Option<&Node<K, V>>>) -> bool {
    exists|i: int| 0 <= i < row.len() && (#[trigger] row[i]) is Some
}

/// A subtree that lies `depth` levels down leaves that many levels above it.
pub proof fn lemma_slot_height<K, V>(t: NodeRef<K, V>, depth: nat, index: nat)
    ensures
        slot(t, depth, index) is Some ==> height(slot(t, depth, index)) + depth <= height(t),
    decreases depth,
{
    if depth > 0 {
        let above = slot(t, (depth - 1) as nat, index / 2);
        lemma_slot_height(t, (depth - 1) as nat, index / 2);
        if above is Some {
            lemma_child_heights(above);
        }
    }
}

/// Whether a row holds a node.
pub(crate) fn any_node<K, V>(row: &Vec<Option<&Node<K, V>>>) -> (found: bool)
    ensures
        found == holds_node(row@),
{
    let mut at: usize = 0;
    while at < row.len()
        invariant
            at <= row@.len(),
            forall|i: int| 0 <= i < at ==> (#[trigger] row@[i]) is None,
        decreases row@.len() - at,
    {
        if row[at].is_some() {
            return true;
        }
        at += 1;
    }
    false
}

impl<K: Ord, V> BSTMap<K, V> {
    /// The rows of the tree from the root down to the last level that holds
    /// a node. Row `d` has `2^d` places; a place holds the node that stands
    /// there, or nothing.
    pub fn level_rows(&self) -> (rows: Vec<Vec<Option<&Node<K, V>>>>)
        ensures
            forall|d: int|
                0 <= d < rows@.len() ==> is_level((#[trigger] rows@[d])@, self.root(), d as nat),
            forall|d: int| 0 <= d < rows@.len() ==> holds_node((#[trigger] rows@[d])@),
            forall|i: nat| i < pow2(rows@.len()) ==> slot(self.root(), rows@.len(), i) is None,
    {
        let mut rows: Vec<Vec<Option<&Node<K, V>>>> = Vec::new();
        let root: Option<&Node<K, V>> = match &self.head {
            None => None,
            Some(node) => Some(&**node),
        };
        let mut current_vector = Vec::new();
        current_vector.push(root);
        proof {
            lemma2_to64();
        }

        loop
            invariant
                is_level(current_vector@, self.head, rows@.len()),
                forall|d: int|
                    0 <= d < rows@.len() ==> is_level((#[trigger] rows@[d])@, self.head, d as nat),
                forall|d: int| 0 <= d < rows@.len() ==> holds_node((#[trigger] rows@[d])@),
            ensures
                forall|i: int|
                    0 <= i < current_vector@.len() ==> (#[trigger] current_vector@[i]) is None,
            decreases height(self.head) + 1 - rows@.len(),
        {
            if !any_node(&current_vector) {
                break ;
            }
            let ghost depth = rows@.len();
            proof {
                let i = choose|i: int|
                    0 <= i < current_vector@.len() && (#[trigger] current_vector@[i]) is Some;
                lemma_slot_height(self.head, depth, i as nat);
                lemma_pow2_unfold(depth + 1);
            }
            let mut next_vector: Vec<Option<&Node<K, V>>> = Vec::new();
            let mut at: usize = 0;
            while at < current_vector.len()
                invariant
                    at <= current_vector@.len(),
                    is_level(current_vector@, self.head, depth),
                    next_vector@.len() == 2 * at,
                    forall|i: int|
                        0 <= i < next_vector@.len() ==> shown(#[trigger] next_vector@[i]) == slot(
                            self.head,
                            depth + 1,
                            i as nat,
                        ),
                decreases current_vector@.len() - at,
            {
                let ghost filled = next_vector@;
                match current_vector[at] {
                    Some(node) => {
                        next_vector.push(
                            match &node.left {
                                None => None,
                                Some(child) => Some(&**child),
                            },
                        );
                        next_vector.push(
                            match &node.right {
                                None => None,
                                Some(child) => Some(&**child),
                            },
                        );
                    },
                    None => {
                        next_vector.push(None);
                        next_vector.push(None);
                    },
                }
                proof {
                    let a = at as int;
                    assert(shown(current_vector@[a]) == slot(self.head, depth, a as nat));
                    assert((2 * a) / 2 == a && (2 * a) % 2 == 0);
                    assert((2 * a + 1) / 2 == a && (2 * a + 1) % 2 == 1);
                    assert forall|i: int| 0 <= i < next_vector@.len() implies shown(
                        #[trigger] next_vector@[i],
                    ) == slot(self.head, depth + 1, i as nat) by {
                        if i < 2 * a {
                            assert(next_vector@[i] == filled[i]);
                        }
                    }
                }
                at += 1;
            }
            rows.push(current_vector);
            current_vector = next_vector;
        }
        proof {
            assert forall|i: nat| i < pow2(rows@.len()) implies slot(
                self.root(),
                rows@.len(),
                i,
            ) is None by {
                assert(current_vector@[i as int] is None);
                assert(shown(current_vector@[i as int]) == slot(self.root(), rows@.len(), i));
            }
        }
        rows
    }
}

} // verus!
