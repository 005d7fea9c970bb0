//! Tree navigation for a tiling window manager's layout snapshots.
//!
//! A [`tree::Tree`] is one immutable, point-in-time copy of the layout tree,
//! stored as an arena so that every node can be walked both downward (ordered
//! children) and upward (parent links). On top of it the crate answers, with
//! verified contracts: which node is focused, which workspace or output
//! encloses a node, which leaf windows exist in document order, and which
//! window comes immediately before or after a node in that order.

pub mod laws;
pub mod nav;
pub mod order;
pub mod tree;
