//! Node references of a linker that keeps its nodes in files.

use vstd::prelude::*;

verus! {

/// Reference to a node of a file-backed linker: the node's file offset.
#[derive(Debug, Clone, Copy, PartialEq, Eq, Hash, Structural)]
pub struct TantivyNodeRef(pub u64);

} // verus!
