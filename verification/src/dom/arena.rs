//! Handles to the nodes of a DOM arena.
use vstd::prelude::*;

verus! {

/// A handle to a node: its position in the arena that owns it.
pub type NodeRef = usize;

/// An optional link from one node to another.
pub type NodeLink = Option<NodeRef>;

} // verus!
