//! Node handles: stable integer positions in an arena.

use vstd::prelude::*;

verus! {

/// Identifies a node by its position in the arena that owns it.
#[derive(Copy, Clone, PartialEq, Eq, Structural, Debug)]
pub struct NodeHandle(pub usize);

impl NodeHandle {
    /// The integer that stands for this handle outside the arena.
    pub fn encode(&self) -> (id: usize)
        ensures
            id == self.0,
    {
        self.0
    }
}

} // verus!
