//! Live ranges.
use vstd::prelude::*;
use crate::dom::arena::NodeRef;
use crate::dom::node::{has_root, root_of, Arena, Node};
use super::{AbstractRange, BoundaryPoint};

verus! {

/// A range that follows the changes of its tree.
#[derive(PartialEq, Eq, Structural, PartialOrd, Ord, Clone, Copy, Debug)]
pub struct LiveRange {
    start: BoundaryPoint,
    end: BoundaryPoint,
}

impl AbstractRange for LiveRange {
    closed spec fn start_spec(&self) -> BoundaryPoint {
        self.start
    }

    closed spec fn end_spec(&self) -> BoundaryPoint {
        self.end
    }

    fn start(&self) -> (res: &BoundaryPoint) {
        &self.start
    }

    fn end(&self) -> (res: &BoundaryPoint) {
        &self.end
    }
}

impl LiveRange {
    /// A collapsed range at offset 0 of `document`.
    pub fn new(document: NodeRef) -> (res: Self)
        ensures
            res.start_spec() == (BoundaryPoint { node: document, offset: 0 }),
            res.end_spec() == (BoundaryPoint { node: document, offset: 0 }),
    {
        Self { start: BoundaryPoint::new(document, 0), end: BoundaryPoint::new(document, 0) }
    }

    /// The root of the range's start node.
    pub fn root(&self, arena: &Arena) -> (res: NodeRef)
        requires
            arena.wf(),
            arena.valid(self.start_spec().node),
            has_root(arena.nodes(), self.start_spec().node as int),
        ensures
            res == root_of(arena.nodes(), self.start_spec().node as int),
    {
        Node::root(arena, self.start().node)
    }
}

} // verus!
