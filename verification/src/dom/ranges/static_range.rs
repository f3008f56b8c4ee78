//! Static ranges: ranges that do not follow mutations of their tree.
use vstd::prelude::*;
use crate::dom::arena::NodeRef;
use crate::dom::dom_exception::{exception_for, DomException, ErrorName};
use crate::dom::node::{doc_of, has_root, length_of, root_of, Arena, Node, NodeData};
use super::{AbstractRange, BoundaryPoint, BoundaryPointPosition};
use super::abstract_range::position_spec;

verus! {

/// A range fixed at creation.
#[derive(PartialEq, Eq, Structural, PartialOrd, Ord, Clone, Copy, Debug)]
pub struct StaticRange {
    start: BoundaryPoint,
    end: BoundaryPoint,
}

impl AbstractRange for StaticRange {
    closed spec fn start_spec(&self) -> BoundaryPoint {
        self.start
    }

    closed spec fn end_spec(&self) -> BoundaryPoint {
        self.end
    }

    fn start(&self) -> (res: &BoundaryPoint) {
        &self.start
    }

    fn end(&self) -> (res: &BoundaryPoint) {
        &self.end
    }
}

/// A doctype or attribute cannot hold a boundary point.
pub open spec fn is_doctype_or_attr(d: NodeData) -> bool {
    d is Doctype || d is Attr
}

impl StaticRange {
    /// The range from (`start_container`, `start_offset`) to
    /// (`end_container`, `end_offset`); an "InvalidNodeTypeError" when either
    /// container is a doctype or an attribute.
    pub fn new(
        arena: &Arena,
        start_container: NodeRef,
        start_offset: usize,
        end_container: NodeRef,
        end_offset: usize,
    ) -> (res: Result<Self, DomException>)
        requires
            arena.valid(start_container),
            arena.valid(end_container),
        ensures
            is_doctype_or_attr(arena.data_of(start_container)) || is_doctype_or_attr(
                arena.data_of(end_container),
            ) ==> res == Err::<Self, DomException>(exception_for(ErrorName::InvalidNodeTypeError)),
            !(is_doctype_or_attr(arena.data_of(start_container)) || is_doctype_or_attr(
                arena.data_of(end_container),
            )) ==> (res matches Ok(r) && r.start_spec() == (BoundaryPoint {
                node: start_container,
                offset: start_offset,
            }) && r.end_spec() == (BoundaryPoint { node: end_container, offset: end_offset })),
    {
        let s = arena.get(start_container);
        let e = arena.get(end_container);
        if s.is_doctype() || s.is_attr() || e.is_doctype() || e.is_attr() {
            return Err(DomException::from(ErrorName::InvalidNodeTypeError));
        }
        let range = StaticRange {
            start: BoundaryPoint::new(start_container, start_offset),
            end: BoundaryPoint::new(end_container, end_offset),
        };
        Ok(range)
    }

    /// The range is valid: start and end have the same node document, both
    /// offsets are within their node's length, and start is not after end.
    /// Start and end must lie in the same tree.
    pub fn is_valid(&self, arena: &Arena) -> (res: bool)
        requires
            arena.wf(),
            arena.valid(self.start_spec().node),
            arena.valid(self.end_spec().node),
            has_root(arena.nodes(), self.start_spec().node as int),
            has_root(arena.nodes(), self.end_spec().node as int),
            root_of(arena.nodes(), self.start_spec().node as int) == root_of(
                arena.nodes(),
                self.end_spec().node as int,
            ),
        ensures
            res == ({
                &&& doc_of(arena.nodes(), self.start_spec().node as int) == doc_of(
                    arena.nodes(),
                    self.end_spec().node as int,
                )
                &&& self.start_spec().offset <= length_of(arena.nodes(), self.start_spec().node as int)
                &&& self.end_spec().offset <= length_of(arena.nodes(), self.end_spec().node as int)
                &&& position_spec(arena.nodes(), self.start_spec(), self.end_spec())
                    != BoundaryPointPosition::After
            }),
    {
        let position = self.start().position(arena, *self.end());
        Node::are_same(Node::document(arena, self.start().node), Node::document(arena, self.end().node))
            && self.start().verify_correctness(arena) && self.end().verify_correctness(arena) && (
        position == BoundaryPointPosition::Before || position == BoundaryPointPosition::Equal)
    }
}

} // verus!
