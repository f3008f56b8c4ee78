//! Boundary points: a node and an offset into it.
use vstd::prelude::*;
use crate::dom::arena::NodeRef;
use crate::dom::node::{
    ancestor_in, has_root, index_of, lemma_ancestor_step, length_of, parent_in, root_at, root_of, tree_wf, Arena,
    Node,
};
use crate::dom::tree_order::{
    depth, lemma_ancestor_at_depth, lemma_ancestor_depth, lemma_tree_order_strict, lemma_tree_order_total,
    precedes_spec,
};

verus! {

/// Where one boundary point lies relative to another.
#[derive(PartialEq, Eq, Structural, PartialOrd, Ord, Clone, Copy, Debug)]
pub enum BoundaryPointPosition {
    Before,
    Equal,
    After,
}

/// A node and an offset into it.
#[derive(PartialEq, Eq, Structural, PartialOrd, Ord, Clone, Copy, Debug)]
pub struct BoundaryPoint {
    pub node: NodeRef,
    pub offset: usize,
}

/// The position of a point at offset `a` relative to a point at offset `b`
/// in the same node.
pub open spec fn offset_position(a: usize, b: usize) -> BoundaryPointPosition {
    if a == b {
        BoundaryPointPosition::Equal
    } else if a < b {
        BoundaryPointPosition::Before
    } else {
        BoundaryPointPosition::After
    }
}

impl BoundaryPoint {
    pub fn new(node: NodeRef, offset: usize) -> (res: Self)
        ensures
            res.node == node,
            res.offset == offset,
    {
        Self { node, offset }
    }

    /// The offset is between 0 and the length of the node, inclusive.
    pub fn verify_correctness(&self, arena: &Arena) -> (res: bool)
        requires
            arena.wf(),
            arena.valid(self.node),
        ensures
            res == (self.offset <= length_of(arena.nodes(), self.node as int)),
    {
        let length = Node::length(arena, self.node);
        self.offset <= length
    }

    /// The position of this point relative to `relative_to`; both nodes
    /// are in the same tree.
    pub fn position(&self, arena: &Arena, relative_to: BoundaryPoint) -> (res: BoundaryPointPosition)
        requires
            arena.wf(),
            arena.valid(self.node),
            arena.valid(relative_to.node),
            has_root(arena.nodes(), self.node as int),
            has_root(arena.nodes(), relative_to.node as int),
            root_of(arena.nodes(), self.node as int) == root_of(arena.nodes(), relative_to.node as int),
        ensures
            res == position_spec(arena.nodes(), *self, relative_to),
        decreases if precedes_spec(arena.nodes(), relative_to.node as int, self.node as int) {
            1int
        } else {
            0int
        },
    {
        let same_root = Node::have_same_root(arena, self.node, relative_to.node);
        assert(same_root);
        if Node::are_same(self.node, relative_to.node) {
            if self.offset == relative_to.offset {
                return BoundaryPointPosition::Equal;
            }
            if self.offset < relative_to.offset {
                return BoundaryPointPosition::Before;
            }
            return BoundaryPointPosition::After;
        }
        if Node::is_following(arena, self.node, relative_to.node) {
            proof {
                lemma_tree_order_strict(arena.nodes(), self.node as int, relative_to.node as int);
            }
            return match relative_to.position(arena, *self) {
                BoundaryPointPosition::Before => BoundaryPointPosition::After,
                BoundaryPointPosition::Equal => BoundaryPointPosition::Equal,
                BoundaryPointPosition::After => BoundaryPointPosition::Before,
            };
        }
        position_forward(arena, *self, relative_to.node)
    }
}

/// The position of a point in node `a` at offset `oa` relative to a point
/// in node `b`, where `a` does not come after `b`: after where `a` is an
/// ancestor of `b` and the child of `a` on the way to `b` has an index below
/// `oa`; before otherwise.
pub open spec fn forward_position(ns: Seq<Node>, a: int, oa: int, b: int) -> BoundaryPointPosition {
    if exists|k: nat|
        #[trigger] ancestor_in(ns, b, k) is Some && parent_in(ns, ancestor_in(ns, b, k)->0) == Some(a)
            && index_of(ns, ancestor_in(ns, b, k)->0) < oa {
        BoundaryPointPosition::After
    } else {
        BoundaryPointPosition::Before
    }
}

/// The opposite position.
pub open spec fn flipped(p: BoundaryPointPosition) -> BoundaryPointPosition {
    match p {
        BoundaryPointPosition::Before => BoundaryPointPosition::After,
        BoundaryPointPosition::Equal => BoundaryPointPosition::Equal,
        BoundaryPointPosition::After => BoundaryPointPosition::Before,
    }
}

/// The position of boundary point `p` relative to `q`, in a tree.
pub open spec fn position_spec(ns: Seq<Node>, p: BoundaryPoint, q: BoundaryPoint) -> BoundaryPointPosition {
    if p.node == q.node {
        offset_position(p.offset, q.offset)
    } else if precedes_spec(ns, q.node as int, p.node as int) {
        flipped(forward_position(ns, q.node as int, q.offset as int, p.node as int))
    } else {
        forward_position(ns, p.node as int, p.offset as int, q.node as int)
    }
}

/// The position of `a` relative to a point in node `b`, where `a`'s node
/// does not come after `b`.
fn position_forward(arena: &Arena, a: BoundaryPoint, b: NodeRef) -> (res: BoundaryPointPosition)
    requires
        arena.wf(),
        arena.valid(a.node),
        arena.valid(b),
        has_root(arena.nodes(), a.node as int),
        has_root(arena.nodes(), b as int),
    ensures
        res == forward_position(arena.nodes(), a.node as int, a.offset as int, b as int),
{
    let ghost ns = arena.nodes();
    if !Node::is_ancestor_of(arena, a.node, b) {
        proof {
            if exists|k: nat|
                #[trigger] ancestor_in(ns, b as int, k) is Some && parent_in(ns, ancestor_in(ns, b as int, k)->0)
                    == Some(a.node as int) && index_of(ns, ancestor_in(ns, b as int, k)->0) < a.offset {
                let k = choose|k: nat|
                    #[trigger] ancestor_in(ns, b as int, k) is Some && parent_in(ns, ancestor_in(ns, b as int, k)->0)
                        == Some(a.node as int) && index_of(ns, ancestor_in(ns, b as int, k)->0) < a.offset;
                lemma_ancestor_step(ns, b as int, k);
                assert(ancestor_in(ns, b as int, k + 1) == Some(a.node as int));
            }
        }
        return BoundaryPointPosition::Before;
    }
    let da = depth(arena, a.node);
    let db = depth(arena, b);
    let ghost k0: nat;
    proof {
        let k = choose|k: nat| k >= 1 && #[trigger] ancestor_in(ns, b as int, k) == Some(a.node as int);
        lemma_ancestor_at_depth(ns, a.node as int, da as nat, b as int, db as nat, k);
        k0 = (k - 1) as nat;
        lemma_ancestor_step(ns, b as int, k0);
    }
    let mut child = b;
    let ghost mut j: nat = 0;
    while !Node::is_child_of(arena, child, a.node)
        invariant
            arena.wf(),
            ns == arena.nodes(),
            0 <= b < ns.len(),
            arena.valid(child),
            root_at(ns, b as int, db as nat),
            k0 + 1 <= db,
            ancestor_in(ns, b as int, (k0 + 1) as nat) == Some(a.node as int),
            parent_in(ns, ancestor_in(ns, b as int, k0)->0) == Some(a.node as int),
            ancestor_in(ns, b as int, k0) is Some,
            j <= k0,
            ancestor_in(ns, b as int, j) == Some(child as int),
        decreases k0 - j,
    {
        proof {
            lemma_ancestor_step(ns, b as int, j);
            lemma_ancestor_depth(ns, b as int, db as nat, j + 1);
        }
        child = arena.get(child).parent().unwrap();
        proof {
            j = j + 1;
        }
    }
    proof {
        assert forall|k: nat|
            #[trigger] ancestor_in(ns, b as int, k) is Some && parent_in(ns, ancestor_in(ns, b as int, k)->0)
                == Some(a.node as int) implies k == j by {
            lemma_ancestor_step(ns, b as int, k);
            lemma_ancestor_step(ns, b as int, j);
            lemma_ancestor_at_depth(ns, a.node as int, da as nat, b as int, db as nat, k + 1);
            lemma_ancestor_at_depth(ns, a.node as int, da as nat, b as int, db as nat, j + 1);
        }
    }
    if Node::index(arena, child) < a.offset {
        return BoundaryPointPosition::After;
    }
    BoundaryPointPosition::Before
}

/// A range: a start and an end boundary point.
pub trait AbstractRange {
    spec fn start_spec(&self) -> BoundaryPoint;

    spec fn end_spec(&self) -> BoundaryPoint;

    fn start(&self) -> (res: &BoundaryPoint)
        ensures
            *res == self.start_spec(),
    ;

    fn end(&self) -> (res: &BoundaryPoint)
        ensures
            *res == self.end_spec(),
    ;

    /// Start and end are the same point.
    fn collapsed(&self) -> (res: bool)
        ensures
            res == (self.start_spec() == self.end_spec()),
    {
        Node::are_same(self.start().node, self.end().node) && self.start().offset == self.end().offset
    }
}

} // verus!

verus! {

/// Positions are antisymmetric: a point is before another exactly when the
/// other is after it, and equal to it exactly when the other is equal to
/// it.
pub proof fn lemma_position_antisymmetric(a: usize, b: usize)
    ensures
        (offset_position(a, b) == BoundaryPointPosition::Before) <==> (offset_position(b, a)
            == BoundaryPointPosition::After),
        (offset_position(a, b) == BoundaryPointPosition::Equal) <==> (offset_position(b, a)
            == BoundaryPointPosition::Equal),
{
}

/// Two boundary points of one tree see each other the opposite way: the
/// position of `p` relative to `q` is the flip of that of `q` relative to
/// `p`.
pub proof fn lemma_position_flips(ns: Seq<Node>, p: BoundaryPoint, q: BoundaryPoint)
    requires
        tree_wf(ns),
        p.node < ns.len(),
        q.node < ns.len(),
        has_root(ns, p.node as int),
        has_root(ns, q.node as int),
        root_of(ns, p.node as int) == root_of(ns, q.node as int),
    ensures
        position_spec(ns, p, q) == flipped(position_spec(ns, q, p)),
{
    if p.node == q.node {
        lemma_position_antisymmetric(p.offset, q.offset);
    } else {
        lemma_tree_order_total(ns, p.node as int, q.node as int);
        lemma_tree_order_strict(ns, p.node as int, q.node as int);
    }
}

} // verus!
