//! A self-balancing ordered tree (AVL tree) over any totally ordered payload.
//!
//! The crate has two layers. [`Node`] is the recursive engine: insertion,
//! removal, rotations, rebalancing and the structural queries. [`AvlTree`] is a
//! thin handle that owns an optional root and turns "no root" into the
//! behaviour of an empty collection.
//!
//! Every function carries a contract. The contracts speak of three models of a
//! tree: its exact shape (the `Node` values themselves), its in-order sequence
//! of payloads ([`Node::values`]) and the three invariants of an AVL tree
//! ([`Node::wf`]). The module [`laws`] states what holds after any run of
//! insertions and removals.

pub mod side;
pub mod error;
pub mod order;
pub mod sequence;
pub mod node;
pub mod query;
pub mod balance;
pub mod insert;
pub mod lookup;
pub mod remove;
pub mod dump;
pub mod tree;
pub mod laws;

pub use error::TreeError;
pub use node::{Node, Tree};
pub use side::Side;
pub use tree::AvlTree;
