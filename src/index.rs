use vstd::prelude::*;

verus! {

/// A handle to a node of a tree: the node's slot and the generation of that slot
/// when the node was stored.
///
/// Two handles are equal when both parts are equal.
#[derive(Clone, Copy, Debug, PartialEq, Eq, Hash, Structural)]
pub struct Index {
    pub slot: usize,
    pub generation: u64,
}

} // verus!
