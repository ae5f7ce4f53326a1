//! Remembers, for each branch of a rooted multi-child tree, which child was
//! last selected, and keeps that memory consistent as the tree changes shape.

pub mod laws;
pub mod selection;
mod slots;
pub mod tree;

pub use selection::{Selection, SelectionInfo, TreeEvent};
pub use tree::{NodeId, NodeMap};
