//! An n-ary tree stored in a generational arena.
//!
//! Nodes are addressed by [`Index`] handles: a slot number and the generation of
//! the slot when the node was stored there. A handle to a removed node never
//! resolves again, even once its slot is reused.

mod arena;
mod cursor;
mod index;
pub mod laws;
mod shape;
mod tree;

pub use crate::index::Index;
pub use crate::arena::MAX_CAPACITY;
pub use crate::cursor::{
    AncestorsIter, ChildrenIter, DescendantsIter, DescendantsWithDepthIter, FollowingSiblingsIter,
    PrecedingSiblingsIter, TraverseIter, TraverseWithDepthIter,
};
pub use crate::tree::{AppendError, Node, NodeEdge, NodeEdgeWithDepth, VecTree};
