//! An incremental document-tree engine.
//!
//! `tree` holds the node store: generation-tagged identifiers, structural
//! edits that keep parent and child links consistent and acyclic, and
//! coalescing of adjacent text. `traversal` walks a subtree in pre-order.
//! `dom` applies the operations of an HTML tree-construction algorithm, in
//! order, and tracks the state of a load; `parser` holds those operations.
//! `navigation` decides how the target of a navigation is fetched. `model`
//! states the abstract tree and its invariant, and `laws` what holds of
//! the edits; `slots` is the storage of nodes.

pub mod dom;
pub mod laws;
pub mod model;
pub mod navigation;
pub mod node;
pub mod parser;
pub mod slots;
pub mod traversal;
pub mod tree;
