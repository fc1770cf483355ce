//! An ordered map from totally ordered keys to values, kept in a
//! height-balanced (AVL) binary search tree.
//!
//! [`BSTMap`] owns the tree. Its contracts are stated over the tree itself
//! (`m.root()`) and over three readings of it: the map from keys to values
//! (`m@`), the in-order listing (`m.inorder()`) and the level-order listing
//! (`m.breadth_first()`). What an operation makes of the tree, node for
//! node, is written down in [`model`]; what holds across operations, in
//! [`laws`].
//!
//! Every operation that compares keys asks that the key type's order be
//! total ([`key_order_is_total`]). Insertion keeps the AVL shape of a tree
//! that has it. Removal splices a node out without rebalancing, so that
//! after a removal the AVL shape is no longer promised and cached heights
//! may be stale. Insertion works on such a tree as on any other: it
//! rebalances by the heights that it finds, and makes a rotation only where
//! the child that moves up is there. It asks for room in `usize` for the
//! length and in `i32` for the heights ([`model::leaves_room`]), which a
//! map in AVL shape has and which removals keep.

pub mod balance;
pub mod bound;
pub mod bulk;
pub mod forest;
pub mod grow;
pub mod insert;
pub mod iter;
pub mod iter_mut;
pub mod laws;
pub mod lookup;
pub mod map;
pub mod model;
pub mod node;
pub mod order;
pub mod path;
pub mod remove;
pub mod rows;

pub use crate::iter::{
    BSTMapByrefBreadthfirstIter, BSTMapByrefInorderIter, BSTMapConsumingInorderIter,
};
pub use crate::iter_mut::BSTMapByrefInorderIterMut;
pub use crate::map::BSTMap;
pub use crate::node::Node;
pub use crate::order::key_order_is_total;
