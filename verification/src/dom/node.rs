//! DOM nodes stored in an arena, with the tree links of the DOM standard:
//! parent, children, siblings, first and last child, and node document.
use vstd::prelude::*;
use super::arena::{NodeLink, NodeRef};
use super::dom_exception::{exception_for, DomException, ErrorName};
use super::{Attribute, Namespace, QualifiedName};
use crate::text::{concat, owned, str_eq, trim, trim_spec};

verus! {

/// A node of the DOM tree.
pub struct Node {
    document: NodeLink,
    parent: NodeLink,
    children: Vec<NodeRef>,
    previous_sibling: NodeLink,
    next_sibling: NodeLink,
    first_child: NodeLink,
    last_child: NodeLink,
    pub data: NodeData,
}

/// What kind of node a node is, with the data of that kind.
#[derive(PartialEq, Eq, PartialOrd, Ord, Debug, Clone)]
pub enum NodeData {
    Document,
    DocumentFragment,
    Element { name: QualifiedName, namespace: Option<Namespace>, attributes: Vec<Attribute> },
    Doctype { name: String, public_id: String, system_id: String },
    CharacterData { data: String, variant: CharacterDataVariant },
    Attr {
        namespace: Option<Namespace>,
        prefix: Option<String>,
        local_name: String,
        name: String,
        value: String,
        owner_element: Option<()>,
    },
}

/// The kinds of character data.
#[derive(PartialEq, Eq, PartialOrd, Ord, Debug, Clone)]
pub enum CharacterDataVariant {
    Text,
    ProcessingInstruction { target: String },
    Comment,
}

/// The store that owns every node; a [`NodeRef`] is a position in it.
pub struct Arena {
    nodes: Vec<Node>,
}

// ---------------------------------------------------------------------
// The model: a sequence of nodes and the tree relations over it.
// ---------------------------------------------------------------------

impl Node {
    pub closed spec fn doc_link(&self) -> NodeLink {
        self.document
    }

    pub closed spec fn parent_link(&self) -> NodeLink {
        self.parent
    }

    pub closed spec fn child_list(&self) -> Seq<NodeRef> {
        self.children@
    }

    pub closed spec fn prev_link(&self) -> NodeLink {
        self.previous_sibling
    }

    pub closed spec fn next_link(&self) -> NodeLink {
        self.next_sibling
    }

    pub closed spec fn first_link(&self) -> NodeLink {
        self.first_child
    }

    pub closed spec fn last_link(&self) -> NodeLink {
        self.last_child
    }

    pub closed spec fn node_data(&self) -> NodeData {
        self.data
    }

    /// The node is an element whose local name is `tag`.
    pub open spec fn has_tag(&self, tag: Seq<char>) -> bool {
        self.node_data() matches NodeData::Element { name, .. } && name.local@ == tag
    }
}

/// A link is empty or points into a store of `len` nodes.
pub open spec fn link_ok(l: NodeLink, len: int) -> bool {
    l matches Some(x) ==> x < len
}

/// The first element of `s`, if any.
pub open spec fn first_of(s: Seq<NodeRef>) -> NodeLink {
    if s.len() == 0 {
        None
    } else {
        Some(s[0])
    }
}

/// The last element of `s`, if any.
pub open spec fn last_of(s: Seq<NodeRef>) -> NodeLink {
    if s.len() == 0 {
        None
    } else {
        Some(s[s.len() - 1])
    }
}

/// The element before position `j` of `s`, if any.
pub open spec fn before(s: Seq<NodeRef>, j: int) -> NodeLink {
    if j <= 0 {
        None
    } else {
        Some(s[j - 1])
    }
}

/// The element after position `j` of `s`, if any.
pub open spec fn after(s: Seq<NodeRef>, j: int) -> NodeLink {
    if j + 1 >= s.len() {
        None
    } else {
        Some(s[j + 1])
    }
}

/// Every link of node `i` points at a node of `ns`.
pub open spec fn links_ok(ns: Seq<Node>, i: int) -> bool {
    let n = ns[i];
    &&& link_ok(n.doc_link(), ns.len() as int)
    &&& link_ok(n.parent_link(), ns.len() as int)
    &&& link_ok(n.prev_link(), ns.len() as int)
    &&& link_ok(n.next_link(), ns.len() as int)
    &&& link_ok(n.first_link(), ns.len() as int)
    &&& link_ok(n.last_link(), ns.len() as int)
    &&& forall|j: int| 0 <= j < n.child_list().len() ==> #[trigger] n.child_list()[j] < ns.len()
}

/// Child `j` of node `p` has `p` as parent and its neighbours in `p`'s
/// children as siblings.
pub open spec fn child_ok(ns: Seq<Node>, p: int, j: int) -> bool {
    let cs = ns[p].child_list();
    let c = cs[j] as int;
    &&& ns[c].parent_link() == Some(p as NodeRef)
    &&& ns[c].prev_link() == before(cs, j)
    &&& ns[c].next_link() == after(cs, j)
}

/// The parent, sibling and first/last child links of node `i` agree with
/// the children lists.
pub open spec fn node_ok(ns: Seq<Node>, i: int) -> bool {
    let n = ns[i];
    &&& links_ok(ns, i)
    &&& n.first_link() == first_of(n.child_list())
    &&& n.last_link() == last_of(n.child_list())
    &&& n.child_list().no_duplicates()
    &&& forall|j: int| 0 <= j < n.child_list().len() ==> #[trigger] child_ok(ns, i, j)
    &&& match n.parent_link() {
        Some(p) => ns[p as int].child_list().contains(i as NodeRef),
        None => n.prev_link() is None && n.next_link() is None,
    }
}

/// The tree links of all nodes are consistent.
pub open spec fn tree_wf(ns: Seq<Node>) -> bool {
    &&& ns.len() <= usize::MAX
    &&& forall|i: int| 0 <= i < ns.len() ==> #[trigger] node_ok(ns, i)
}

/// The node document of node `i`: its document link, or itself.
pub open spec fn doc_of(ns: Seq<Node>, i: int) -> int {
    match ns[i].doc_link() {
        Some(d) => d as int,
        None => i,
    }
}

/// The parent of `i`, when `i` is a node that has one.
pub open spec fn parent_in(ns: Seq<Node>, i: int) -> Option<int> {
    if 0 <= i < ns.len() {
        match ns[i].parent_link() {
            Some(p) => Some(p as int),
            None => None,
        }
    } else {
        None
    }
}

/// The node `k` parent links above `i`, if the chain is that long.
pub open spec fn ancestor_in(ns: Seq<Node>, i: int, k: nat) -> Option<int>
    decreases k,
{
    if k == 0 {
        Some(i)
    } else {
        match parent_in(ns, i) {
            Some(p) => ancestor_in(ns, p, (k - 1) as nat),
            None => None,
        }
    }
}

/// Following `k` parent links from `i` reaches a node without parent.
pub open spec fn root_at(ns: Seq<Node>, i: int, k: nat) -> bool {
    &&& ancestor_in(ns, i, k) matches Some(r)
    &&& 0 <= r < ns.len()
    &&& parent_in(ns, r) is None
}

/// The chain of parents above `i` is finite.
pub open spec fn has_root(ns: Seq<Node>, i: int) -> bool {
    exists|k: nat| k < ns.len() && root_at(ns, i, k)
}

/// The root of `i`: the top of its chain of parents (which must end).
pub open spec fn root_of(ns: Seq<Node>, i: int) -> int {
    ancestor_in(ns, i, choose|k: nat| k < ns.len() && root_at(ns, i, k)).unwrap()
}

/// The index of node `i`: the number of its preceding siblings.
pub open spec fn index_of(ns: Seq<Node>, i: int) -> int {
    match ns[i].parent_link() {
        Some(p) => ns[p as int].child_list().index_of(i as NodeRef),
        None => 0,
    }
}

/// Every subtree reachable from `i` through children is at most `h` deep.
pub open spec fn bounded_in(ns: Seq<Node>, i: int, h: nat) -> bool
    decreases h,
{
    &&& 0 <= i < ns.len()
    &&& if h == 0 {
        ns[i].child_list().len() == 0
    } else {
        forall|j: int|
            0 <= j < ns[i].child_list().len() ==> bounded_in(
                ns,
                #[trigger] ns[i].child_list()[j] as int,
                (h - 1) as nat,
            )
    }
}

impl NodeData {
    pub open spec fn is_document_spec(&self) -> bool {
        *self is Document
    }

    pub open spec fn is_element_spec(&self) -> bool {
        *self is Element
    }

    pub open spec fn is_doctype_spec(&self) -> bool {
        *self is Doctype
    }

    pub open spec fn is_fragment_spec(&self) -> bool {
        *self is DocumentFragment
    }

    pub open spec fn is_character_data_spec(&self) -> bool {
        *self is CharacterData
    }

    pub open spec fn is_text_spec(&self) -> bool {
        *self matches NodeData::CharacterData { variant: CharacterDataVariant::Text, .. }
    }
}

impl Arena {
    /// The nodes, by handle.
    pub closed spec fn nodes(&self) -> Seq<Node> {
        self.nodes@
    }

    /// The store's tree links are consistent.
    pub open spec fn wf(&self) -> bool {
        tree_wf(self.nodes())
    }

    /// `r` is a handle of this store.
    pub open spec fn valid(&self, r: NodeRef) -> bool {
        r < self.nodes().len()
    }

    /// The data of node `r`.
    pub open spec fn data_of(&self, r: NodeRef) -> NodeData {
        self.nodes()[r as int].node_data()
    }

    /// The children of node `r`.
    pub open spec fn children_of(&self, r: NodeRef) -> Seq<NodeRef> {
        self.nodes()[r as int].child_list()
    }

    /// The parent of node `r`.
    pub open spec fn parent_of(&self, r: NodeRef) -> NodeLink {
        self.nodes()[r as int].parent_link()
    }

    /// An empty store.
    pub fn new() -> (res: Self)
        ensures
            res.nodes().len() == 0,
            res.wf(),
    {
        let res = Arena { nodes: Vec::new() };
        assert(res.nodes@.len() == 0);
        res
    }

    /// The number of nodes in the store.
    pub fn len(&self) -> (res: usize)
        ensures
            res == self.nodes().len(),
    {
        self.nodes.len()
    }

    /// Moves `node` into the store and returns its handle. The node must be
    /// detached, as [`Node::new`] makes it.
    pub fn allocate(&mut self, node: Node) -> (res: NodeRef)
        requires
            old(self).wf(),
            node.is_detached(),
            link_ok(node.doc_link(), old(self).nodes().len() as int),
        ensures
            final(self).wf(),
            res == old(self).nodes().len(),
            final(self).nodes() == old(self).nodes().push(node),
    {
        let res = self.nodes.len();
        self.nodes.push(node);
        assert(self.nodes.len() == self.nodes@.len());
        proof {
            let ns = self.nodes@;
            let os = old(self).nodes@;
            assert forall|i: int| 0 <= i < ns.len() implies #[trigger] node_ok(ns, i) by {
                if i < os.len() {
                    assert(node_ok(os, i));
                    let n = ns[i];
                    assert forall|j: int| 0 <= j < n.child_list().len() implies #[trigger] child_ok(
                        ns,
                        i,
                        j,
                    ) by {
                        assert(child_ok(os, i, j));
                    }
                }
            }
        }
        res
    }

    /// The node with handle `r`.
    pub fn get(&self, r: NodeRef) -> (res: &Node)
        requires
            self.valid(r),
        ensures
            *res == self.nodes()[r as int],
    {
        &self.nodes[r]
    }
}

impl Node {
    /// The node has no parent, siblings or children.
    pub open spec fn is_detached(&self) -> bool {
        &&& self.parent_link() is None
        &&& self.prev_link() is None
        &&& self.next_link() is None
        &&& self.first_link() is None
        &&& self.last_link() is None
        &&& self.child_list().len() == 0
    }

    /// A detached node with the given node document and data.
    pub fn new(document: Option<NodeRef>, data: NodeData) -> (res: Node)
        ensures
            res.is_detached(),
            res.doc_link() == document,
            res.node_data() == data,
    {
        Node {
            document,
            parent: None,
            children: Vec::new(),
            previous_sibling: None,
            next_sibling: None,
            first_child: None,
            last_child: None,
            data,
        }
    }

    /// The kind of the node, with its data.
    pub fn data(&self) -> (res: &NodeData)
        ensures
            *res == self.node_data(),
    {
        &self.data
    }

    pub fn parent(&self) -> (res: Option<NodeRef>)
        ensures
            res == self.parent_link(),
    {
        self.parent
    }

    pub fn previous_sibling(&self) -> (res: Option<NodeRef>)
        ensures
            res == self.prev_link(),
    {
        self.previous_sibling
    }

    pub fn next_sibling(&self) -> (res: Option<NodeRef>)
        ensures
            res == self.next_link(),
    {
        self.next_sibling
    }

    pub fn first_child(&self) -> (res: Option<NodeRef>)
        ensures
            res == self.first_link(),
    {
        self.first_child
    }

    pub fn last_child(&self) -> (res: Option<NodeRef>)
        ensures
            res == self.last_link(),
    {
        self.last_child
    }

    pub fn children(&self) -> (res: &Vec<NodeRef>)
        ensures
            res@ == self.child_list(),
    {
        &self.children
    }

    pub fn is_document_fragment(&self) -> (res: bool)
        ensures
            res == self.node_data().is_fragment_spec(),
    {
        matches!(self.data, NodeData::DocumentFragment)
    }

    pub fn is_comment(&self) -> (res: bool)
        ensures
            res == (self.node_data() matches NodeData::CharacterData {
                variant: CharacterDataVariant::Comment,
                ..
            }),
    {
        matches!(self.data, NodeData::CharacterData { variant: CharacterDataVariant::Comment, .. })
    }

    pub fn is_doctype(&self) -> (res: bool)
        ensures
            res == self.node_data().is_doctype_spec(),
    {
        matches!(self.data, NodeData::Doctype { .. })
    }

    pub fn is_document(&self) -> (res: bool)
        ensures
            res == self.node_data().is_document_spec(),
    {
        matches!(self.data, NodeData::Document)
    }

    pub fn is_element(&self) -> (res: bool)
        ensures
            res == self.node_data().is_element_spec(),
    {
        matches!(self.data, NodeData::Element { .. })
    }

    pub fn is_character_data(&self) -> (res: bool)
        ensures
            res == self.node_data().is_character_data_spec(),
    {
        matches!(self.data, NodeData::CharacterData { .. })
    }

    pub fn is_processing_instruction(&self) -> (res: bool)
        ensures
            res == (self.node_data() matches NodeData::CharacterData {
                variant: CharacterDataVariant::ProcessingInstruction { .. },
                ..
            }),
    {
        matches!(
            self.data,
            NodeData::CharacterData { variant: CharacterDataVariant::ProcessingInstruction { .. }, .. }
        )
    }

    pub fn is_text(&self) -> (res: bool)
        ensures
            res == self.node_data().is_text_spec(),
    {
        matches!(self.data, NodeData::CharacterData { variant: CharacterDataVariant::Text, .. })
    }

    pub fn is_attr(&self) -> (res: bool)
        ensures
            res == (self.node_data() is Attr),
    {
        matches!(self.data, NodeData::Attr { .. })
    }

    /// The local name of an element.
    pub fn element_tag_name(&self) -> (res: Option<&str>)
        ensures
            match self.node_data() {
                NodeData::Element { name, .. } => res matches Some(s) && s@ == name.local@,
                _ => res is None,
            },
    {
        if let NodeData::Element { name, .. } = &self.data {
            return Some(name.local.as_str());
        }
        None
    }

    /// The node is an element whose local name is one of `tags`.
    pub fn is_element_with_one_of_tags(&self, tags: &[&str]) -> (res: bool)
        ensures
            res == exists|i: int| 0 <= i < tags@.len() && self.has_tag(#[trigger] tags@[i]@),
    {
        if let Some(name) = self.element_tag_name() {
            let mut i: usize = 0;
            while i < tags.len()
                invariant
                    0 <= i <= tags@.len(),
                    self.node_data() matches NodeData::Element { name: qn, .. } && qn.local@ == name@,
                    forall|k: int| 0 <= k < i ==> !self.has_tag(#[trigger] tags@[k]@),
                decreases tags@.len() - i,
            {
                if str_eq(tags[i], name) {
                    assert(self.has_tag(tags@[i as int]@));
                    return true;
                }
                i += 1;
            }
            return false;
        }
        false
    }

    /// The node is an element whose local name is `tag`.
    pub fn is_element_with_tag(&self, tag: &str) -> (res: bool)
        ensures
            res == self.has_tag(tag@),
    {
        if let Some(name) = self.element_tag_name() {
            return str_eq(name, tag);
        }
        false
    }
}

// ---------------------------------------------------------------------
// Updates of single links, used by the tree mutations.
// ---------------------------------------------------------------------

pub closed spec fn with_parent(n: Node, v: NodeLink) -> Node {
    Node { parent: v, ..n }
}

pub closed spec fn with_prev(n: Node, v: NodeLink) -> Node {
    Node { previous_sibling: v, ..n }
}

pub closed spec fn with_next(n: Node, v: NodeLink) -> Node {
    Node { next_sibling: v, ..n }
}

pub closed spec fn with_first(n: Node, v: NodeLink) -> Node {
    Node { first_child: v, ..n }
}

pub closed spec fn with_last(n: Node, v: NodeLink) -> Node {
    Node { last_child: v, ..n }
}

pub closed spec fn with_doc(n: Node, v: NodeLink) -> Node {
    Node { document: v, ..n }
}


pub broadcast proof fn lemma_with_fields(n: Node, v: NodeLink)
    ensures
        #![trigger with_parent(n, v)]
        #![trigger with_prev(n, v)]
        #![trigger with_next(n, v)]
        #![trigger with_first(n, v)]
        #![trigger with_last(n, v)]
        #![trigger with_doc(n, v)]
        with_parent(n, v).parent_link() == v && with_parent(n, v).doc_link() == n.doc_link()
            && with_parent(n, v).prev_link() == n.prev_link() && with_parent(n, v).next_link()
            == n.next_link() && with_parent(n, v).first_link() == n.first_link() && with_parent(
            n,
            v,
        ).last_link() == n.last_link() && with_parent(n, v).child_list() == n.child_list()
            && with_parent(n, v).node_data() == n.node_data(),
        with_prev(n, v).prev_link() == v && with_prev(n, v).doc_link() == n.doc_link()
            && with_prev(n, v).parent_link() == n.parent_link() && with_prev(n, v).next_link()
            == n.next_link() && with_prev(n, v).first_link() == n.first_link() && with_prev(
            n,
            v,
        ).last_link() == n.last_link() && with_prev(n, v).child_list() == n.child_list()
            && with_prev(n, v).node_data() == n.node_data(),
        with_next(n, v).next_link() == v && with_next(n, v).doc_link() == n.doc_link()
            && with_next(n, v).parent_link() == n.parent_link() && with_next(n, v).prev_link()
            == n.prev_link() && with_next(n, v).first_link() == n.first_link() && with_next(
            n,
            v,
        ).last_link() == n.last_link() && with_next(n, v).child_list() == n.child_list()
            && with_next(n, v).node_data() == n.node_data(),
        with_first(n, v).first_link() == v && with_first(n, v).doc_link() == n.doc_link()
            && with_first(n, v).parent_link() == n.parent_link() && with_first(n, v).prev_link()
            == n.prev_link() && with_first(n, v).next_link() == n.next_link() && with_first(
            n,
            v,
        ).last_link() == n.last_link() && with_first(n, v).child_list() == n.child_list()
            && with_first(n, v).node_data() == n.node_data(),
        with_last(n, v).last_link() == v && with_last(n, v).doc_link() == n.doc_link()
            && with_last(n, v).parent_link() == n.parent_link() && with_last(n, v).prev_link()
            == n.prev_link() && with_last(n, v).next_link() == n.next_link() && with_last(
            n,
            v,
        ).first_link() == n.first_link() && with_last(n, v).child_list() == n.child_list()
            && with_last(n, v).node_data() == n.node_data(),
        with_doc(n, v).doc_link() == v && with_doc(n, v).last_link() == n.last_link()
            && with_doc(n, v).parent_link() == n.parent_link() && with_doc(n, v).prev_link()
            == n.prev_link() && with_doc(n, v).next_link() == n.next_link() && with_doc(
            n,
            v,
        ).first_link() == n.first_link() && with_doc(n, v).child_list() == n.child_list()
            && with_doc(n, v).node_data() == n.node_data(),
{
}

/// `b` has the links and data of `a`, except possibly its children.
pub open spec fn same_but_children(a: Node, b: Node) -> bool {
    &&& b.doc_link() == a.doc_link()
    &&& b.parent_link() == a.parent_link()
    &&& b.prev_link() == a.prev_link()
    &&& b.next_link() == a.next_link()
    &&& b.first_link() == a.first_link()
    &&& b.last_link() == a.last_link()
    &&& b.node_data() == a.node_data()
}

impl Arena {
    fn set_parent(&mut self, i: NodeRef, v: NodeLink)
        requires
            i < old(self).nodes().len(),
        ensures
            final(self).nodes() == old(self).nodes().update(
                i as int,
                with_parent(old(self).nodes()[i as int], v),
            ),
    {
        self.nodes[i].parent = v;
        assert(self.nodes@ =~= old(self).nodes@.update(i as int, with_parent(old(self).nodes@[i as int], v)));
    }

    fn set_prev(&mut self, i: NodeRef, v: NodeLink)
        requires
            i < old(self).nodes().len(),
        ensures
            final(self).nodes() == old(self).nodes().update(
                i as int,
                with_prev(old(self).nodes()[i as int], v),
            ),
    {
        self.nodes[i].previous_sibling = v;
        assert(self.nodes@ =~= old(self).nodes@.update(i as int, with_prev(old(self).nodes@[i as int], v)));
    }

    fn set_next(&mut self, i: NodeRef, v: NodeLink)
        requires
            i < old(self).nodes().len(),
        ensures
            final(self).nodes() == old(self).nodes().update(
                i as int,
                with_next(old(self).nodes()[i as int], v),
            ),
    {
        self.nodes[i].next_sibling = v;
        assert(self.nodes@ =~= old(self).nodes@.update(i as int, with_next(old(self).nodes@[i as int], v)));
    }

    fn set_first(&mut self, i: NodeRef, v: NodeLink)
        requires
            i < old(self).nodes().len(),
        ensures
            final(self).nodes() == old(self).nodes().update(
                i as int,
                with_first(old(self).nodes()[i as int], v),
            ),
    {
        self.nodes[i].first_child = v;
        assert(self.nodes@ =~= old(self).nodes@.update(i as int, with_first(old(self).nodes@[i as int], v)));
    }

    fn set_last(&mut self, i: NodeRef, v: NodeLink)
        requires
            i < old(self).nodes().len(),
        ensures
            final(self).nodes() == old(self).nodes().update(
                i as int,
                with_last(old(self).nodes()[i as int], v),
            ),
    {
        self.nodes[i].last_child = v;
        assert(self.nodes@ =~= old(self).nodes@.update(i as int, with_last(old(self).nodes@[i as int], v)));
    }

    fn set_doc(&mut self, i: NodeRef, v: NodeLink)
        requires
            i < old(self).nodes().len(),
        ensures
            final(self).nodes() == old(self).nodes().update(
                i as int,
                with_doc(old(self).nodes()[i as int], v),
            ),
    {
        self.nodes[i].document = v;
        assert(self.nodes@ =~= old(self).nodes@.update(i as int, with_doc(old(self).nodes@[i as int], v)));
    }

    fn insert_child(&mut self, i: NodeRef, pos: usize, c: NodeRef)
        requires
            i < old(self).nodes().len(),
            pos <= old(self).nodes()[i as int].child_list().len(),
        ensures
            final(self).nodes().len() == old(self).nodes().len(),
            forall|k: int|
                0 <= k < final(self).nodes().len() && k != i ==> final(self).nodes()[k] == old(
                    self,
                ).nodes()[k],
            same_but_children(old(self).nodes()[i as int], final(self).nodes()[i as int]),
            final(self).nodes()[i as int].child_list() == old(self).nodes()[i as int].child_list().insert(
                pos as int,
                c,
            ),
    {
        self.nodes[i].children.insert(pos, c);
    }

    fn push_child(&mut self, i: NodeRef, c: NodeRef)
        requires
            i < old(self).nodes().len(),
        ensures
            final(self).nodes().len() == old(self).nodes().len(),
            forall|k: int|
                0 <= k < final(self).nodes().len() && k != i ==> final(self).nodes()[k] == old(
                    self,
                ).nodes()[k],
            same_but_children(old(self).nodes()[i as int], final(self).nodes()[i as int]),
            final(self).nodes()[i as int].child_list() == old(self).nodes()[i as int].child_list().push(c),
    {
        self.nodes[i].children.push(c);
    }
}

/// In a consistent tree, a node with a parent sits in its parent's
/// children at its index.
pub proof fn lemma_index_facts(ns: Seq<Node>, i: int)
    requires
        tree_wf(ns),
        0 <= i < ns.len(),
        ns[i].parent_link() is Some,
    ensures
        ns[i].parent_link() matches Some(p) && 0 <= p < ns.len() && 0 <= index_of(ns, i)
            < ns[p as int].child_list().len() && ns[p as int].child_list()[index_of(ns, i)] == i,
{
    assert(node_ok(ns, i));
    let p = ns[i].parent_link()->0 as int;
    assert(links_ok(ns, i));
    let cs = ns[p].child_list();
    assert(cs.contains(i as NodeRef));
    let j = choose|j: int| 0 <= j < cs.len() && cs[j] == i as NodeRef;
    assert(cs[cs.index_of(i as NodeRef)] == i as NodeRef);
    assert(0 <= p < ns.len());
    assert(index_of(ns, i) == cs.index_of(i as NodeRef));
    assert(0 <= index_of(ns, i) < cs.len());
}

impl Node {
    /// Whether `a` and `b` are the same node.
    pub fn are_same(a: NodeRef, b: NodeRef) -> (res: bool)
        ensures
            res == (a == b),
    {
        a == b
    }

    /// Whether `a` and `b` are both absent or the same node.
    pub fn are_same_optional(a: Option<NodeRef>, b: Option<NodeRef>) -> (res: bool)
        ensures
            res == (a == b),
    {
        if let Some(a) = a {
            if let Some(b) = b {
                return Node::are_same(a, b);
            }
        }
        a.is_none() && b.is_none()
    }

    /// The node document of `this`: its document link, or `this` itself.
    pub fn document(arena: &Arena, this: NodeRef) -> (res: NodeRef)
        requires
            arena.wf(),
            arena.valid(this),
        ensures
            res == doc_of(arena.nodes(), this as int),
            arena.valid(res),
    {
        proof {
            assert(node_ok(arena.nodes(), this as int));
        }
        match arena.get(this).document {
            Some(document) => document,
            None => this,
        }
    }

    /// The root of `this`: the top of its chain of parents.
    pub fn root(arena: &Arena, this: NodeRef) -> (res: NodeRef)
        requires
            arena.wf(),
            arena.valid(this),
            has_root(arena.nodes(), this as int),
        ensures
            res == root_of(arena.nodes(), this as int),
    {
        let ghost ns = arena.nodes();
        let ghost k = choose|k: nat| k < ns.len() && root_at(ns, this as int, k);
        let mut current = this;
        let ghost mut m: nat = k;
        let mut up = arena.get(current).parent;
        while up.is_some()
            invariant
                arena.wf(),
                ns == arena.nodes(),
                arena.valid(current),
                up == ns[current as int].parent_link(),
                m <= k,
                root_at(ns, current as int, m),
                ancestor_in(ns, current as int, m) == ancestor_in(ns, this as int, k),
            decreases m,
        {
            proof {
                assert(node_ok(ns, current as int));
                if m == 0 {
                    assert(parent_in(ns, current as int) is None);
                }
                m = (m - 1) as nat;
            }
            current = up.unwrap();
            up = arena.get(current).parent;
        }
        proof {
            if m > 0 {
                assert(ancestor_in(ns, current as int, m) is None);
            }
            lemma_root_unique(ns, this as int, k);
        }
        current
    }

    /// Whether `a` and `b` have the same root.
    pub fn have_same_root(arena: &Arena, a: NodeRef, b: NodeRef) -> (res: bool)
        requires
            arena.wf(),
            arena.valid(a),
            arena.valid(b),
            has_root(arena.nodes(), a as int),
            has_root(arena.nodes(), b as int),
        ensures
            res == (root_of(arena.nodes(), a as int) == root_of(arena.nodes(), b as int)),
    {
        Node::are_same(Node::root(arena, a), Node::root(arena, b))
    }

    /// The inclusive ancestors of `this`: `this` itself, then its ancestors,
    /// nearest first.
    pub fn inclusive_anscestors(arena: &Arena, this: NodeRef) -> (res: Vec<NodeRef>)
        requires
            arena.wf(),
            arena.valid(this),
            has_root(arena.nodes(), this as int),
        ensures
            res@.len() >= 1,
            root_at(arena.nodes(), this as int, (res@.len() - 1) as nat),
            forall|m: int|
                0 <= m < res@.len() ==> Some(#[trigger] res@[m] as int) == ancestor_in(
                    arena.nodes(),
                    this as int,
                    m as nat,
                ),
    {
        let ghost ns = arena.nodes();
        let ghost k = choose|k: nat| k < ns.len() && root_at(ns, this as int, k);
        let mut nodes: Vec<NodeRef> = Vec::new();
        nodes.push(this);
        let mut current = this;
        let mut up = arena.get(current).parent;
        proof {
            assert(ancestor_in(ns, this as int, 0) == Some(this as int));
        }
        while up.is_some()
            invariant
                arena.wf(),
                ns == arena.nodes(),
                arena.valid(current),
                up == ns[current as int].parent_link(),
                1 <= nodes@.len() <= k + 1,
                k < ns.len(),
                root_at(ns, this as int, k),
                ancestor_in(ns, this as int, (nodes@.len() - 1) as nat) == Some(current as int),
                forall|m: int|
                    0 <= m < nodes@.len() ==> Some(#[trigger] nodes@[m] as int) == ancestor_in(
                        ns,
                        this as int,
                        m as nat,
                    ),
            decreases k + 1 - nodes@.len(),
        {
            proof {
                assert(node_ok(ns, current as int));
                lemma_ancestor_step(ns, this as int, (nodes@.len() - 1) as nat);
                if nodes@.len() == k + 1 {
                    assert(parent_in(ns, current as int) is None);
                }
            }
            let p = up.unwrap();
            nodes.push(p);
            current = p;
            up = arena.get(current).parent;
        }
        proof {
            let d = (nodes@.len() - 1) as nat;
            lemma_ancestor_step(ns, this as int, d);
            assert(root_at(ns, this as int, d));
        }
        nodes
    }

    /// The number of preceding siblings of `this`.
    pub fn index(arena: &Arena, this: NodeRef) -> (res: usize)
        requires
            arena.wf(),
            arena.valid(this),
        ensures
            res == index_of(arena.nodes(), this as int),
    {
        let ghost ns = arena.nodes();
        proof {
            assert(node_ok(ns, this as int));
        }
        let mut index: usize = 0;
        let mut current = arena.get(this).previous_sibling;
        if arena.get(this).parent.is_none() {
            return 0;
        }
        let ghost p = ns[this as int].parent_link()->0 as int;
        let ghost cs = ns[p].child_list();
        let ghost pos = index_of(ns, this as int);
        proof {
            lemma_index_facts(ns, this as int);
            assert(node_ok(ns, p));
            assert(child_ok(ns, p, pos));
            assert(ns[p].children.len() == cs.len());
        }
        while current.is_some()
            invariant
                arena.wf(),
                ns == arena.nodes(),
                0 <= p < ns.len(),
                cs == ns[p].child_list(),
                cs.len() <= usize::MAX,
                0 <= pos < cs.len(),
                index <= pos,
                current == before(cs, pos - index),
            decreases pos - index,
        {
            proof {
                assert(node_ok(ns, p));
                assert(child_ok(ns, p, pos - index - 1));
            }
            index += 1;
            current = arena.get(current.unwrap()).previous_sibling;
        }
        index
    }
}

/// One more step up the chain of parents.
pub proof fn lemma_ancestor_step(ns: Seq<Node>, i: int, m: nat)
    ensures
        ancestor_in(ns, i, m + 1) == match ancestor_in(ns, i, m) {
            Some(a) => parent_in(ns, a),
            None => None,
        },
    decreases m,
{
    if m == 0 {
        reveal_with_fuel(ancestor_in, 2);
    } else {
        match parent_in(ns, i) {
            Some(p) => lemma_ancestor_step(ns, p, (m - 1) as nat),
            None => {},
        }
    }
}

/// The root of a node sits at one distance only.
pub proof fn lemma_root_unique_at(ns: Seq<Node>, i: int, k1: nat, k2: nat)
    requires
        root_at(ns, i, k1),
    ensures
        !root_at(ns, i, k2) || k1 == k2,
    decreases k1 + k2,
{
    if k1 > 0 && k2 > 0 {
        match parent_in(ns, i) {
            Some(p) => lemma_root_unique_at(ns, p, (k1 - 1) as nat, (k2 - 1) as nat),
            None => {},
        }
    } else if k1 == 0 && k2 > 0 {
        assert(parent_in(ns, i) is None);
    } else if k2 == 0 && k1 > 0 {
        if root_at(ns, i, k2) {
            assert(parent_in(ns, i) is None);
        }
    }
}

/// `root_of` is the top of the chain found at any distance.
pub proof fn lemma_root_unique(ns: Seq<Node>, i: int, k: nat)
    requires
        root_at(ns, i, k),
        k < ns.len(),
    ensures
        root_of(ns, i) == ancestor_in(ns, i, k).unwrap(),
{
    let k2 = choose|k2: nat| k2 < ns.len() && root_at(ns, i, k2);
    lemma_root_unique_at(ns, i, k, k2);
}

/// `ns` is `os` with only the document links changed.
pub open spec fn same_structure(os: Seq<Node>, ns: Seq<Node>) -> bool {
    &&& ns.len() == os.len()
    &&& forall|i: int|
        0 <= i < os.len() ==> {
            &&& (#[trigger] ns[i]).parent_link() == os[i].parent_link()
            &&& ns[i].prev_link() == os[i].prev_link()
            &&& ns[i].next_link() == os[i].next_link()
            &&& ns[i].first_link() == os[i].first_link()
            &&& ns[i].last_link() == os[i].last_link()
            &&& ns[i].child_list() == os[i].child_list()
            &&& ns[i].node_data() == os[i].node_data()
        }
}

/// The document links of `ns` are those of `os` after adopting `node` into
/// the document `d`: when the node documents differ, `node` and each of its
/// children (the inclusive descendants that the adoption walks) get `d` as
/// their node document.
pub open spec fn docs_adopted(os: Seq<Node>, ns: Seq<Node>, d: int, node: int) -> bool {
    forall|i: int|
        0 <= i < os.len() ==> (#[trigger] ns[i]).doc_link() == if d != doc_of(os, node) && (i == node
            || os[node].child_list().contains(i as NodeRef)) {
            Some(d as NodeRef)
        } else {
            os[i].doc_link()
        }
}

/// `ns` is `os` after inserting the detached node `n` into the children of
/// `p` at position `pos`, with all tree links updated (document links are
/// not constrained).
pub open spec fn inserted_at(os: Seq<Node>, ns: Seq<Node>, p: int, n: int, pos: int) -> bool {
    let cs = os[p].child_list();
    let cs2 = cs.insert(pos, n as NodeRef);
    &&& ns.len() == os.len()
    &&& forall|i: int|
        0 <= i < os.len() ==> {
            &&& (#[trigger] ns[i]).node_data() == os[i].node_data()
            &&& ns[i].child_list() == if i == p {
                cs2
            } else {
                os[i].child_list()
            }
            &&& ns[i].parent_link() == if i == n {
                Some(p as NodeRef)
            } else {
                os[i].parent_link()
            }
            &&& ns[i].prev_link() == if i == n {
                before(cs, pos)
            } else if pos < cs.len() && i == cs[pos] {
                Some(n as NodeRef)
            } else {
                os[i].prev_link()
            }
            &&& ns[i].next_link() == if i == n {
                if pos < cs.len() {
                    Some(cs[pos])
                } else {
                    None
                }
            } else if pos > 0 && i == cs[pos - 1] {
                Some(n as NodeRef)
            } else {
                os[i].next_link()
            }
            &&& ns[i].first_link() == if i == p {
                first_of(cs2)
            } else {
                os[i].first_link()
            }
            &&& ns[i].last_link() == if i == p {
                last_of(cs2)
            } else {
                os[i].last_link()
            }
        }
}

/// Changing document links only keeps the tree consistent.
pub proof fn lemma_same_structure_wf(os: Seq<Node>, ns: Seq<Node>)
    requires
        tree_wf(os),
        same_structure(os, ns),
        forall|i: int| 0 <= i < ns.len() ==> link_ok(#[trigger] ns[i].doc_link(), ns.len() as int),
    ensures
        tree_wf(ns),
{
    assert forall|i: int| 0 <= i < ns.len() implies #[trigger] node_ok(ns, i) by {
        assert(node_ok(os, i));
        let _ = ns[i];
        assert forall|j: int| 0 <= j < ns[i].child_list().len() implies #[trigger] child_ok(
            ns,
            i,
            j,
        ) by {
            assert(child_ok(os, i, j));
            let c = os[i].child_list()[j] as int;
            assert(links_ok(os, i));
            let _ = ns[c];
        }
        match ns[i].parent_link() {
            Some(q) => {
                assert(links_ok(os, i));
                let _ = ns[q as int];
            },
            None => {},
        }
    }
}

/// The detached node `n` is in no children list.
proof fn lemma_detached_not_child(os: Seq<Node>, n: int)
    requires
        tree_wf(os),
        0 <= n < os.len(),
        os[n].parent_link() is None,
    ensures
        forall|i: int, j: int|
            0 <= i < os.len() && 0 <= j < os[i].child_list().len() ==> #[trigger] os[i].child_list()[j]
                != n,
{
    assert forall|i: int, j: int|
        0 <= i < os.len() && 0 <= j < os[i].child_list().len() implies #[trigger] os[i].child_list()[j]
        != n by {
        assert(node_ok(os, i));
        assert(child_ok(os, i, j));
    }
}

/// Inserting a value not yet present keeps a list free of duplicates.
proof fn lemma_insert_no_dup(cs: Seq<NodeRef>, pos: int, x: NodeRef)
    requires
        cs.no_duplicates(),
        !cs.contains(x),
        0 <= pos <= cs.len(),
    ensures
        cs.insert(pos, x).no_duplicates(),
{
    let cs2 = cs.insert(pos, x);
    cs.insert_ensures(pos, x);
    assert forall|a: int, b: int|
        0 <= a < cs2.len() && 0 <= b < cs2.len() && a != b implies cs2[a] != cs2[b] by {
        if a > pos {
            assert(cs2[a] == cs[a - 1]);
        }
        if b > pos {
            assert(cs2[b] == cs[b - 1]);
        }
    }
}

/// After the insertion, child `j` of `p` is consistent.
proof fn lemma_inserted_child_of_p(os: Seq<Node>, ns: Seq<Node>, p: int, n: int, pos: int, j: int)
    requires
        tree_wf(os),
        0 <= p < os.len(),
        0 <= n < os.len(),
        os[n].parent_link() is None,
        !os[p].child_list().contains(n as NodeRef),
        0 <= pos <= os[p].child_list().len(),
        inserted_at(os, ns, p, n, pos),
        forall|k: int| 0 <= k < ns.len() ==> link_ok(#[trigger] ns[k].doc_link(), ns.len() as int),
        0 <= j < os[p].child_list().len() + 1,
    ensures
        child_ok(ns, p, j),
{
    let cs = os[p].child_list();
    let cs2 = cs.insert(pos, n as NodeRef);
    cs.insert_ensures(pos, n as NodeRef);
    assert(node_ok(os, p));
    let _ = ns[p];
    if j < pos {
        assert(child_ok(os, p, j));
        let c = cs[j] as int;
        assert(links_ok(os, p));
        let _ = ns[c];
        if j + 1 < pos {
            assert(cs2[j + 1] == cs[j + 1]);
        }
        if j > 0 {
            assert(cs2[j - 1] == cs[j - 1]);
        }
        if pos < cs.len() {
            assert(c != cs[pos]);
        }
        if j < pos - 1 {
            assert(c != cs[pos - 1]);
        }
    } else if j == pos {
        let _ = ns[n];
        if pos > 0 {
            assert(cs2[pos - 1] == cs[pos - 1]);
        }
        if pos < cs.len() {
            assert(cs2[pos + 1] == cs[pos]);
        }
    } else {
        assert(child_ok(os, p, j - 1));
        let c = cs[j - 1] as int;
        assert(cs2[j] == c);
        assert(links_ok(os, p));
        let _ = ns[c];
        if j - 1 > pos {
            assert(cs2[j - 1] == cs[j - 2]);
        }
        if j + 1 < cs2.len() {
            assert(cs2[j + 1] == cs[j]);
        }
        if pos > 0 {
            assert(cs[j - 1] != cs[pos - 1]);
        }
        if j - 1 != pos {
            assert(cs[j - 1] != cs[pos]);
        }
    }
}

/// After the insertion, child `j` of a node other than `p` is consistent.
proof fn lemma_inserted_child_of_other(
    os: Seq<Node>,
    ns: Seq<Node>,
    p: int,
    n: int,
    pos: int,
    i: int,
    j: int,
)
    requires
        tree_wf(os),
        0 <= p < os.len(),
        0 <= n < os.len(),
        0 <= i < os.len(),
        i != p,
        os[n].parent_link() is None,
        0 <= pos <= os[p].child_list().len(),
        inserted_at(os, ns, p, n, pos),
        forall|k: int| 0 <= k < ns.len() ==> link_ok(#[trigger] ns[k].doc_link(), ns.len() as int),
        0 <= j < os[i].child_list().len(),
    ensures
        child_ok(ns, i, j),
{
    let cs = os[p].child_list();
    assert(node_ok(os, i));
    assert(child_ok(os, i, j));
    assert(links_ok(os, i));
    let c = os[i].child_list()[j] as int;
    let _ = ns[i];
    let _ = ns[c];
    assert(node_ok(os, p));
    if pos < cs.len() {
        assert(child_ok(os, p, pos));
        assert(c != cs[pos]);
    }
    if pos > 0 {
        assert(child_ok(os, p, pos - 1));
        assert(c != cs[pos - 1]);
    }
}

/// After the insertion, node `i` is consistent.
proof fn lemma_inserted_node_ok(os: Seq<Node>, ns: Seq<Node>, p: int, n: int, pos: int, i: int)
    requires
        tree_wf(os),
        0 <= p < os.len(),
        0 <= n < os.len(),
        0 <= i < os.len(),
        os[n].parent_link() is None,
        0 <= pos <= os[p].child_list().len(),
        inserted_at(os, ns, p, n, pos),
        forall|k: int| 0 <= k < ns.len() ==> link_ok(#[trigger] ns[k].doc_link(), ns.len() as int),
    ensures
        node_ok(ns, i),
{
    let cs = os[p].child_list();
    let cs2 = cs.insert(pos, n as NodeRef);
    cs.insert_ensures(pos, n as NodeRef);
    lemma_detached_not_child(os, n);
    assert(node_ok(os, p));
    assert(node_ok(os, n));
    assert(node_ok(os, i));
    assert(links_ok(os, i));
    assert(links_ok(os, p));
    assert(!cs.contains(n as NodeRef));
    lemma_insert_no_dup(cs, pos, n as NodeRef);
    let _ = ns[i];
    assert(links_ok(ns, i)) by {
        if i == p {
            assert forall|j: int| 0 <= j < ns[i].child_list().len() implies #[trigger] ns[i].child_list()[j]
                < ns.len() by {
                if j > pos {
                    assert(cs2[j] == cs[j - 1]);
                }
            }
        }
        if i == n && pos < cs.len() {
            let _ = cs[pos];
        }
        if i == n && pos > 0 {
            let _ = cs[pos - 1];
        }
    }
    assert forall|j: int| 0 <= j < ns[i].child_list().len() implies #[trigger] child_ok(ns, i, j) by {
        if i == p {
            lemma_inserted_child_of_p(os, ns, p, n, pos, j);
        } else {
            lemma_inserted_child_of_other(os, ns, p, n, pos, i, j);
        }
    }
    match ns[i].parent_link() {
        Some(q) => {
            let _ = ns[q as int];
            if i == n {
                assert(cs2[pos] == n as NodeRef);
            } else if q as int == p {
                let k = choose|k: int| 0 <= k < cs.len() && cs[k] == i as NodeRef;
                if k < pos {
                    assert(cs2[k] == i as NodeRef);
                } else {
                    assert(cs2[k + 1] == i as NodeRef);
                }
            }
        },
        None => {
            if pos < cs.len() {
                assert(child_ok(os, p, pos));
            }
            if pos > 0 {
                assert(child_ok(os, p, pos - 1));
            }
        },
    }
}

/// Inserting a detached node keeps the tree consistent.
pub proof fn lemma_inserted_wf(os: Seq<Node>, ns: Seq<Node>, p: int, n: int, pos: int)
    requires
        tree_wf(os),
        0 <= p < os.len(),
        0 <= n < os.len(),
        os[n].parent_link() is None,
        0 <= pos <= os[p].child_list().len(),
        inserted_at(os, ns, p, n, pos),
        forall|k: int| 0 <= k < ns.len() ==> link_ok(#[trigger] ns[k].doc_link(), ns.len() as int),
    ensures
        tree_wf(ns),
{
    assert forall|i: int| 0 <= i < ns.len() implies #[trigger] node_ok(ns, i) by {
        lemma_inserted_node_ok(os, ns, p, n, pos, i);
    }
}

impl Node {
    /// Adopts the detached node `node` into the document `this`: when the
    /// node documents differ, `node` and each of its children get `this`'s
    /// node document as their node document.
    pub fn adopt(arena: &mut Arena, this: NodeRef, node: NodeRef)
        requires
            old(arena).wf(),
            old(arena).valid(this),
            old(arena).valid(node),
            old(arena).data_of(this).is_document_spec(),
            old(arena).parent_of(node) is None,
        ensures
            final(arena).wf(),
            same_structure(old(arena).nodes(), final(arena).nodes()),
            docs_adopted(
                old(arena).nodes(),
                final(arena).nodes(),
                doc_of(old(arena).nodes(), this as int),
                node as int,
            ),
    {
        let ghost os = arena.nodes();
        let old_document = Node::document(arena, node);
        let document = Node::document(arena, this);
        if document != old_document {
            let n = arena.get(node).children.len();
            let mut j: usize = 0;
            proof {
                assert(node_ok(os, node as int));
                assert(links_ok(os, node as int));
            }
            while j < n
                invariant
                    0 <= j <= n,
                    n == os[node as int].child_list().len(),
                    arena.nodes().len() == os.len(),
                    tree_wf(os),
                    same_structure(os, arena.nodes()),
                    document < os.len(),
                    0 <= node < os.len(),
                    document != doc_of(os, node as int),
                    os[node as int].child_list().no_duplicates(),
                    forall|m: int| 0 <= m < n ==> #[trigger] os[node as int].child_list()[m] < os.len(),
                    forall|k: int|
                        0 <= k < os.len() ==> (#[trigger] arena.nodes()[k]).doc_link() == if exists|m: int|
                            0 <= m < j && os[node as int].child_list()[m] == k as NodeRef {
                            Some(document)
                        } else {
                            os[k].doc_link()
                        },
                decreases n - j,
            {
                let c = arena.get(node).children[j];
                proof {
                    assert(arena.nodes()[node as int].child_list() == os[node as int].child_list());
                    assert(os[node as int].child_list()[j as int] < os.len());
                }
                arena.set_doc(c, Some(document));
                proof {
                    let cs = os[node as int].child_list();
                    assert forall|k: int|
                        0 <= k < os.len() implies (#[trigger] arena.nodes()[k]).doc_link() == if exists|m: int|
                            0 <= m < j + 1 && cs[m] == k as NodeRef {
                            Some(document)
                        } else {
                            os[k].doc_link()
                        } by {
                        if k == c {
                            assert(cs[j as int] == k as NodeRef);
                        } else {
                            if exists|m: int| 0 <= m < j + 1 && cs[m] == k as NodeRef {
                                let m = choose|m: int| 0 <= m < j + 1 && cs[m] == k as NodeRef;
                                assert(m != j);
                            }
                        }
                    }
                }
                j += 1;
            }
            // Attributes carry no node document of their own here, so the
            // step for elements has nothing to set.
            let ghost before_node = arena.nodes();
            arena.set_doc(node, Some(document));
            proof {
                let ns = arena.nodes();
                let cs = os[node as int].child_list();
                assert(node_ok(os, node as int));
                assert(!cs.contains(node)) by {
                    if cs.contains(node) {
                        let m = choose|m: int| 0 <= m < cs.len() && cs[m] == node;
                        assert(child_ok(os, node as int, m));
                    }
                }
                assert forall|k: int| 0 <= k < os.len() implies (#[trigger] ns[k]).doc_link() == if document != doc_of(os, node as int)
                    && (k == node || cs.contains(k as NodeRef)) {
                    Some(document)
                } else {
                    os[k].doc_link()
                } by {
                    if k != node {
                        assert(ns[k] == before_node[k]);
                        if cs.contains(k as NodeRef) {
                            let m = choose|m: int| 0 <= m < cs.len() && cs[m] == k as NodeRef;
                        }
                    }
                }
                assert forall|i: int| 0 <= i < ns.len() implies link_ok(#[trigger] ns[i].doc_link(), ns.len() as int) by {
                    assert(node_ok(os, i));
                }
                lemma_same_structure_wf(os, ns);
            }
        } else {
            proof {
                assert(same_structure(os, arena.nodes()));
            }
        }
    }
}

impl Node {
    /// Inserts `node` into the children of `this`, before `child`, or at the
    /// end when `child` is `None`. The node is first adopted into `this`'s
    /// node document. A document fragment has its children moved instead,
    /// which only an empty fragment allows (it is a no-op then).
    pub fn insert_before(arena: &mut Arena, this: NodeRef, node: NodeRef, child: Option<NodeRef>)
        requires
            Self::insert_before_requires(old(arena), this, node, child),
        ensures
            final(arena).wf(),
            old(arena).data_of(node).is_fragment_spec() ==> final(arena).nodes() == old(arena).nodes(),
            !old(arena).data_of(node).is_fragment_spec() ==> {
                &&& inserted_at(
                    old(arena).nodes(),
                    final(arena).nodes(),
                    this as int,
                    node as int,
                    Self::insertion_position(old(arena), this, child),
                )
                &&& docs_adopted(
                    old(arena).nodes(),
                    final(arena).nodes(),
                    doc_of(old(arena).nodes(), doc_of(old(arena).nodes(), this as int)),
                    node as int,
                )
            },
    {
        let ghost os = arena.nodes();
        if arena.get(node).is_document_fragment() {
            return;
        }
        let document = Node::document(arena, this);
        Node::adopt(arena, document, node);
        let ghost ms = arena.nodes();
        proof {
            broadcast use lemma_with_fields;
            assert(node_ok(os, this as int));
        }
        match child {
            Some(c) => {
                let idx = Node::index(arena, c);
                proof {
                    lemma_index_facts(ms, c as int);
                }
                Self::link_before(arena, this, node, c, idx);
                proof {
                    Self::lemma_insert_before_done(os, ms, arena.nodes(), this, node, idx as int);
                }
            },
            None => {
                Self::link_last(arena, this, node);
                proof {
                    let pos = os[this as int].child_list().len() as int;
                    Self::lemma_insert_before_done(os, ms, arena.nodes(), this, node, pos);
                }
            },
        }
    }

    /// Links the detached `node` into the children of `this`, just before
    /// its child `c`, which sits at position `idx`.
    fn link_before(arena: &mut Arena, this: NodeRef, node: NodeRef, c: NodeRef, idx: usize)
        requires
            old(arena).wf(),
            old(arena).valid(this),
            old(arena).valid(node),
            old(arena).parent_of(node) is None,
            idx < old(arena).children_of(this).len(),
            old(arena).children_of(this)[idx as int] == c,
        ensures
            inserted_at(old(arena).nodes(), final(arena).nodes(), this as int, node as int, idx as int),
            forall|k: int|
                0 <= k < final(arena).nodes().len() ==> #[trigger] final(arena).nodes()[k].doc_link()
                    == old(arena).nodes()[k].doc_link(),
    {
        let ghost ms = arena.nodes();
        let ghost cs = ms[this as int].child_list();
        proof {
            broadcast use lemma_with_fields;
            assert(node_ok(ms, this as int));
            assert(child_ok(ms, this as int, idx as int));
            assert(links_ok(ms, this as int));
            lemma_detached_not_child(ms, node as int);
        }
        arena.insert_child(this, idx, node);
        let cprev = arena.get(c).previous_sibling;
        assert(cprev == before(cs, idx as int));
        arena.set_prev(node, cprev);
        arena.set_next(node, Some(c));
        let ghost s3 = arena.nodes();
        if let Some(q) = cprev {
            arena.set_next(q, Some(node));
        }
        let ghost s4 = arena.nodes();
        assert forall|i: int| 0 <= i < ms.len() implies (#[trigger] s4[i]).next_link() == if i == node {
            if (idx as int) < cs.len() {
                Some(cs[idx as int])
            } else {
                None
            }
        } else if idx > 0 && i == cs[idx - 1] {
            Some(node)
        } else {
            ms[i].next_link()
        } by {}
        let first_is_c = arena.get(this).first_child == Some(c);
        assert(first_is_c == (idx == 0)) by {
            if idx > 0 {
                assert(cs[0] != cs[idx as int]);
            }
        }
        if first_is_c {
            arena.set_first(this, Some(node));
        }
        arena.set_prev(c, Some(node));
        arena.set_parent(node, Some(this));
        proof {
            let ns = arena.nodes();
            let p = this as int;
            let n = node as int;
            let pos = idx as int;
            cs.insert_ensures(pos, n as NodeRef);
            assert forall|i: int| 0 <= i < ms.len() implies (#[trigger] ns[i]).next_link() == s4[i].next_link() by {}
        }
    }

    /// Links the detached `node` into the children of `this`, last.
    fn link_last(arena: &mut Arena, this: NodeRef, node: NodeRef)
        requires
            old(arena).wf(),
            old(arena).valid(this),
            old(arena).valid(node),
            old(arena).parent_of(node) is None,
        ensures
            inserted_at(
                old(arena).nodes(),
                final(arena).nodes(),
                this as int,
                node as int,
                old(arena).children_of(this).len() as int,
            ),
            forall|k: int|
                0 <= k < final(arena).nodes().len() ==> #[trigger] final(arena).nodes()[k].doc_link()
                    == old(arena).nodes()[k].doc_link(),
    {
        let ghost ms = arena.nodes();
        let ghost cs = ms[this as int].child_list();
        proof {
            broadcast use lemma_with_fields;
            assert(node_ok(ms, this as int));
            assert(links_ok(ms, this as int));
            lemma_detached_not_child(ms, node as int);
        }
        let last = arena.get(this).last_child;
        arena.push_child(this, node);
        arena.set_prev(node, last);
        arena.set_parent(node, Some(this));
        if let Some(q) = last {
            arena.set_next(q, Some(node));
        }
        arena.set_last(this, Some(node));
        if arena.get(this).first_child.is_none() {
            arena.set_first(this, Some(node));
        }
        proof {
            let ns = arena.nodes();
            let pos = cs.len() as int;
            let n = node as int;
            let p = this as int;
            cs.insert_ensures(pos, node);
            assert(cs.insert(pos, node) =~= cs.push(node));
            assert(last == last_of(cs));
            assert forall|i: int| 0 <= i < ms.len() implies (#[trigger] ns[i]).next_link() == if i == n { None } else if pos > 0 && i == cs[pos - 1] { Some(n as NodeRef) } else { ms[i].next_link() } by {
                assert(node_ok(ms, n));
            }
            assert forall|i: int| 0 <= i < ms.len() implies (#[trigger] ns[i]).prev_link() == if i == n { before(cs, pos) } else { ms[i].prev_link() } by {}
            assert forall|i: int| 0 <= i < ms.len() implies (#[trigger] ns[i]).first_link() == if i == p { first_of(cs.push(node)) } else { ms[i].first_link() } by {}
            assert forall|i: int| 0 <= i < ms.len() implies (#[trigger] ns[i]).last_link() == if i == p { last_of(cs.push(node)) } else { ms[i].last_link() } by {}
            assert forall|i: int| 0 <= i < ms.len() implies (#[trigger] ns[i]).child_list() == if i == p { cs.push(node) } else { ms[i].child_list() } by {}
        }
    }

    /// What `insert_before` needs: a consistent store, a detached node, a
    /// reference child of `this`; an empty fragment, or a node document of
    /// `this` that is a document and, when the node documents differ, a node
    /// without element children.
    pub open spec fn insert_before_requires(
        arena: &Arena,
        this: NodeRef,
        node: NodeRef,
        child: Option<NodeRef>,
    ) -> bool {
        let ns = arena.nodes();
        &&& arena.wf()
        &&& arena.valid(this)
        &&& arena.valid(node)
        &&& arena.parent_of(node) is None
        &&& (child matches Some(c) ==> arena.valid(c) && arena.parent_of(c) == Some(this))
        &&& if arena.data_of(node).is_fragment_spec() {
            arena.children_of(node).len() == 0
        } else {
            ns[doc_of(ns, this as int)].node_data().is_document_spec()
        }
    }

    /// Where `insert_before` puts the node: at `child`'s index, or last.
    pub open spec fn insertion_position(arena: &Arena, this: NodeRef, child: Option<NodeRef>) -> int {
        match child {
            Some(c) => index_of(arena.nodes(), c as int),
            None => arena.children_of(this).len() as int,
        }
    }

    proof fn lemma_insert_before_done(
        os: Seq<Node>,
        ms: Seq<Node>,
        ns: Seq<Node>,
        this: NodeRef,
        node: NodeRef,
        pos: int,
    )
        requires
            tree_wf(os),
            tree_wf(ms),
            0 <= this < os.len(),
            0 <= node < os.len(),
            os[node as int].parent_link() is None,
            0 <= pos <= os[this as int].child_list().len(),
            same_structure(os, ms),
            inserted_at(ms, ns, this as int, node as int, pos),
            forall|k: int| 0 <= k < ns.len() ==> #[trigger] ns[k].doc_link() == ms[k].doc_link(),
        ensures
            tree_wf(ns),
            inserted_at(os, ns, this as int, node as int, pos),
    {
        assert forall|k: int| 0 <= k < ns.len() implies link_ok(#[trigger] ns[k].doc_link(), ns.len() as int) by {
            assert(node_ok(ms, k));
        }
        let _ = ms[node as int];
        let _ = ms[this as int];
        lemma_inserted_wf(ms, ns, this as int, node as int, pos);
        assert forall|i: int| 0 <= i < os.len() implies #[trigger] ms[i] == ms[i] by {}
    }
}

/// The local names of the elements that mark scope boundaries in the list
/// of active formatting elements.
pub open spec fn marker_tags() -> Seq<Seq<char>> {
    seq!["applet"@, "object"@, "marquee"@, "template"@, "td"@, "th"@, "caption"@]
}

impl Node {
    /// The node is an applet, object, marquee, template, td, th or caption
    /// element.
    pub fn is_marker_element(&self) -> (res: bool)
        ensures
            res == exists|i: int| 0 <= i < marker_tags().len() && self.has_tag(#[trigger] marker_tags()[i]),
    {
        let tags: [&str; 7] = ["applet", "object", "marquee", "template", "td", "th", "caption"];
        let r = self.is_element_with_one_of_tags(&tags);
        proof {
            assert(tags@.map_values(|t: &str| t@) =~= marker_tags());
        }
        r
    }
}

/// The local names of the elements in the "special" category of the HTML
/// parser.
pub open spec fn special_tags() -> Seq<Seq<char>> {
    seq!["address"@, "applet"@, "area"@, "article"@, "aside"@, "base"@, "basefont"@, "bgsound"@, "blockquote"@, "body"@, "br"@, "button"@, "caption"@, "center"@, "col"@, "colgroup"@, "dd"@, "details"@, "dir"@, "div"@, "dl"@, "dt"@, "embed"@, "fieldset"@, "figcaption"@, "figure"@, "footer"@, "form"@, "frame"@, "frameset"@, "h1"@, "h2"@, "h3"@, "h4"@, "h5"@, "h6"@, "head"@, "header"@, "hgroup"@, "hr"@, "html"@, "iframe"@, "img"@, "input"@, "keygen"@, "li"@, "link"@, "listing"@, "main"@, "marquee"@, "menu"@, "meta"@, "nav"@, "noembed"@, "noframes"@, "noscript"@, "object"@, "ol"@, "p"@, "param"@, "plaintext"@, "pre"@, "script"@, "search"@, "section"@, "select"@, "source"@, "style"@, "summary"@, "table"@, "tbody"@, "td"@, "template"@, "textarea"@, "tfoot"@, "th"@, "thead"@, "title"@, "tr"@, "track"@, "ul"@, "wbr"@, "xmp"@, "mi"@, "mo"@, "mn"@, "ms"@, "mtext"@, "annotation-xml"@, "foreignObject"@, "desc"@, "title"@]
}

impl Node {
    /// The node is an element of the "special" category.
    pub fn is_special_tag(&self) -> (res: bool)
        ensures
            res == exists|i: int| 0 <= i < special_tags().len() && self.has_tag(#[trigger] special_tags()[i]),
    {
        let tags: [&str; 92] = ["address", "applet", "area", "article", "aside", "base", "basefont", "bgsound", "blockquote", "body", "br", "button", "caption", "center", "col", "colgroup", "dd", "details", "dir", "div", "dl", "dt", "embed", "fieldset", "figcaption", "figure", "footer", "form", "frame", "frameset", "h1", "h2", "h3", "h4", "h5", "h6", "head", "header", "hgroup", "hr", "html", "iframe", "img", "input", "keygen", "li", "link", "listing", "main", "marquee", "menu", "meta", "nav", "noembed", "noframes", "noscript", "object", "ol", "p", "param", "plaintext", "pre", "script", "search", "section", "select", "source", "style", "summary", "table", "tbody", "td", "template", "textarea", "tfoot", "th", "thead", "title", "tr", "track", "ul", "wbr", "xmp", "mi", "mo", "mn", "ms", "mtext", "annotation-xml", "foreignObject", "desc", "title"];
        let r = self.is_element_with_one_of_tags(&tags);
        proof {
            assert(tags@.map_values(|t: &str| t@) =~= special_tags());
        }
        r
    }
}

/// Some child of node `p` satisfies `f`.
pub open spec fn has_child_where(ns: Seq<Node>, p: int, f: spec_fn(NodeData) -> bool) -> bool {
    exists|j: int|
        0 <= j < ns[p].child_list().len() && f(ns[#[trigger] ns[p].child_list()[j] as int].node_data())
}

/// The error that inserting `node` into `parent` before `child` raises, by
/// the steps of "ensure pre-insertion validity" that are carried out.
pub open spec fn pre_insertion_error(
    ns: Seq<Node>,
    parent: int,
    node: int,
    child: Option<NodeRef>,
) -> Option<ErrorName> {
    let pd = ns[parent].node_data();
    let nd = ns[node].node_data();
    if !pd.is_document_spec() && !pd.is_fragment_spec() && !pd.is_element_spec() {
        Some(ErrorName::HierarchyRequestError)
    } else if child matches Some(c) && ns[c as int].parent_link() != Some(parent as NodeRef) {
        Some(ErrorName::NotFoundError)
    } else if !nd.is_fragment_spec() && !nd.is_doctype_spec() && !nd.is_element_spec()
        && !nd.is_character_data_spec() {
        Some(ErrorName::HierarchyRequestError)
    } else if (nd.is_text_spec() && pd.is_document_spec()) || (nd.is_doctype_spec()
        && !pd.is_document_spec()) {
        Some(ErrorName::HierarchyRequestError)
    } else if pd.is_document_spec() && match nd {
        NodeData::Element { .. } => {
            ||| has_child_where(ns, parent, |d: NodeData| d.is_element_spec())
            ||| (child matches Some(c) && ns[c as int].node_data().is_doctype_spec())
            ||| (child matches Some(c) && ns[c as int].next_link() matches Some(x)
                && ns[x as int].node_data().is_doctype_spec())
        },
        NodeData::Doctype { .. } => {
            ||| has_child_where(ns, parent, |d: NodeData| d.is_doctype_spec())
            ||| (child matches Some(c) && ns[c as int].prev_link() matches Some(x)
                && ns[x as int].node_data().is_element_spec())
            ||| (child is None && has_child_where(ns, parent, |d: NodeData| d.is_element_spec()))
        },
        _ => false,
    } {
        Some(ErrorName::HierarchyRequestError)
    } else {
        None
    }
}

/// The length of node `i`: 0 for doctypes and attributes, the number of
/// UTF-8 bytes of the data of character data, else the number of children.
pub open spec fn length_of(ns: Seq<Node>, i: int) -> int {
    match ns[i].node_data() {
        NodeData::Doctype { .. } => 0,
        NodeData::Attr { .. } => 0,
        NodeData::CharacterData { data, .. } => (vstd::utf8::encode_utf8(data@).len() as usize) as int,
        _ => ns[i].child_list().len() as int,
    }
}

impl Node {
    /// Whether some child of `this` is an element (`doctype` false) or a
    /// doctype (`doctype` true).
    fn has_child_of_kind(arena: &Arena, this: NodeRef, doctype: bool) -> (res: bool)
        requires
            arena.wf(),
            arena.valid(this),
        ensures
            doctype ==> res == has_child_where(arena.nodes(), this as int, |d: NodeData| d.is_doctype_spec()),
            !doctype ==> res == has_child_where(arena.nodes(), this as int, |d: NodeData| d.is_element_spec()),
    {
        let ghost ns = arena.nodes();
        proof {
            assert(node_ok(ns, this as int));
            assert(links_ok(ns, this as int));
        }
        let n = arena.get(this).children.len();
        let mut j: usize = 0;
        while j < n
            invariant
                0 <= j <= n,
                arena.wf(),
                ns == arena.nodes(),
                arena.valid(this),
                n == ns[this as int].child_list().len(),
                forall|m: int| 0 <= m < n ==> #[trigger] ns[this as int].child_list()[m] < ns.len(),
                forall|m: int|
                    0 <= m < j ==> !(if doctype {
                        ns[#[trigger] ns[this as int].child_list()[m] as int].node_data().is_doctype_spec()
                    } else {
                        ns[ns[this as int].child_list()[m] as int].node_data().is_element_spec()
                    }),
            decreases n - j,
        {
            let c = arena.get(this).children[j];
            let hit = if doctype {
                arena.get(c).is_doctype()
            } else {
                arena.get(c).is_element()
            };
            if hit {
                return true;
            }
            j += 1;
        }
        false
    }

    /// Checks that `node` may be inserted into `this` before `child`.
    pub fn ensure_pre_insertion_validity(
        arena: &Arena,
        this: NodeRef,
        node: NodeRef,
        child: Option<NodeRef>,
    ) -> (res: Result<(), DomException>)
        requires
            arena.wf(),
            arena.valid(this),
            arena.valid(node),
            child matches Some(c) ==> arena.valid(c),
        ensures
            match pre_insertion_error(arena.nodes(), this as int, node as int, child) {
                Some(name) => res == Err::<(), DomException>(exception_for(name)),
                None => res is Ok,
            },
    {
        let ghost ns = arena.nodes();
        let parent = arena.get(this);
        let n = arena.get(node);
        if !parent.is_document() && !parent.is_document_fragment() && !parent.is_element() {
            return Err(DomException::from(ErrorName::HierarchyRequestError));
        }
        if let Some(c) = child {
            let child_parent = arena.get(c).parent();
            if !Node::are_same_optional(child_parent, Some(this)) {
                return Err(DomException::from(ErrorName::NotFoundError));
            }
        }
        if !n.is_document_fragment() && !n.is_doctype() && !n.is_element() && !n.is_character_data() {
            return Err(DomException::from(ErrorName::HierarchyRequestError));
        }
        if (n.is_text() && parent.is_document()) || (n.is_doctype() && !parent.is_document()) {
            return Err(DomException::from(ErrorName::HierarchyRequestError));
        }
        proof {
            if let Some(c) = child {
                assert(node_ok(ns, c as int));
            }
        }
        if parent.is_document() {
            let bad = match &n.data {
                NodeData::Element { .. } => {
                    Node::has_child_of_kind(arena, this, false) || match child {
                        Some(c) => arena.get(c).is_doctype(),
                        None => false,
                    } || match child {
                        Some(c) => match arena.get(c).next_sibling() {
                            Some(x) => arena.get(x).is_doctype(),
                            None => false,
                        },
                        None => false,
                    }
                },
                NodeData::Doctype { .. } => {
                    Node::has_child_of_kind(arena, this, true) || match child {
                        Some(c) => match arena.get(c).previous_sibling() {
                            Some(x) => arena.get(x).is_element(),
                            None => false,
                        },
                        None => false,
                    } || (child.is_none() && Node::has_child_of_kind(arena, this, false))
                },
                _ => false,
            };
            if bad {
                return Err(DomException::from(ErrorName::HierarchyRequestError));
            }
        }
        Ok(())
    }

    /// Inserts `node` into `this` before `child` (before `node`'s next
    /// sibling when `child` is `node` itself), and returns `node`.
    fn pre_insert(arena: &mut Arena, this: NodeRef, node: NodeRef, child: Option<NodeRef>) -> (res: NodeRef)
        requires
            Self::insert_before_requires(old(arena), this, node, child),
            child != Some(node),
        ensures
            res == node,
            final(arena).wf(),
            old(arena).data_of(node).is_fragment_spec() ==> final(arena).nodes() == old(arena).nodes(),
            !old(arena).data_of(node).is_fragment_spec() ==> {
                &&& inserted_at(
                    old(arena).nodes(),
                    final(arena).nodes(),
                    this as int,
                    node as int,
                    Self::insertion_position(old(arena), this, child),
                )
                &&& docs_adopted(
                    old(arena).nodes(),
                    final(arena).nodes(),
                    doc_of(old(arena).nodes(), doc_of(old(arena).nodes(), this as int)),
                    node as int,
                )
            },
    {
        let mut reference_child = child;
        if reference_child == Some(node) {
            reference_child = arena.get(node).next_sibling();
        }
        Node::insert_before(arena, this, node, reference_child);
        node
    }

    /// Appends `child` to the children of `this`.
    pub fn append(arena: &mut Arena, this: NodeRef, child: NodeRef)
        requires
            Self::insert_before_requires(old(arena), this, child, None),
        ensures
            final(arena).wf(),
            old(arena).data_of(child).is_fragment_spec() ==> final(arena).nodes() == old(arena).nodes(),
            !old(arena).data_of(child).is_fragment_spec() ==> {
                &&& inserted_at(
                    old(arena).nodes(),
                    final(arena).nodes(),
                    this as int,
                    child as int,
                    old(arena).children_of(this).len() as int,
                )
                &&& docs_adopted(
                    old(arena).nodes(),
                    final(arena).nodes(),
                    doc_of(old(arena).nodes(), doc_of(old(arena).nodes(), this as int)),
                    child as int,
                )
            },
    {
        Node::pre_insert(arena, this, child, None);
    }

    /// The length of `this`.
    pub fn length(arena: &Arena, this: NodeRef) -> (res: usize)
        requires
            arena.wf(),
            arena.valid(this),
        ensures
            res == length_of(arena.nodes(), this as int),
    {
        let n = arena.get(this);
        if n.is_doctype() || n.is_attr() {
            0
        } else if let NodeData::CharacterData { data, .. } = &n.data {
            data.as_str().len()
        } else {
            n.children.len()
        }
    }
}

/// The view of an optional string.
pub open spec fn opt_view(o: Option<String>) -> Option<Seq<char>> {
    match o {
        Some(s) => Some(s@),
        None => None,
    }
}

/// The opening and closing lines that a dump shows for a node of kind `d`.
pub open spec fn tags_spec(d: NodeData) -> (Option<Seq<char>>, Option<Seq<char>>) {
    match d {
        NodeData::Document => (Some("Document"@), Some("\""@)),
        NodeData::Doctype { name, .. } => (Some("<!DOCTYPE "@ + name@ + ">"@), None),
        NodeData::CharacterData { variant: CharacterDataVariant::Text, data } => (
            Some("#text \""@ + trim_spec(data@) + "\""@),
            None,
        ),
        NodeData::Element { name, .. } => (Some("<"@ + name.local@ + ">"@), Some("\""@)),
        _ => (None, None),
    }
}

impl NodeData {
    /// The opening and closing lines that a dump shows for this node.
    pub fn tags(&self) -> (res: (Option<String>, Option<String>))
        ensures
            opt_view(res.0) == tags_spec(*self).0,
            opt_view(res.1) == tags_spec(*self).1,
    {
        match self {
            NodeData::Document => (Some(owned("Document")), Some(owned("\""))),
            NodeData::Doctype { name, .. } => {
                let a = concat("<!DOCTYPE ", name.as_str());
                (Some(concat(a.as_str(), ">")), None)
            },
            NodeData::CharacterData { variant: CharacterDataVariant::Text, data } => {
                let t = trim(data.as_str());
                let a = concat("#text \"", t.as_str());
                (Some(concat(a.as_str(), "\"")), None)
            },
            NodeData::Element { name, .. } => {
                let a = concat("<", name.local.as_str());
                (Some(concat(a.as_str(), ">")), Some(owned("\"")))
            },
            _ => (None, None),
        }
    }
}

/// The lines of a dump of the subtree of `i`, each prefixed by `indent`,
/// children indented two more spaces; `h` bounds the depth.
pub open spec fn dump_lines(ns: Seq<Node>, i: int, indent: Seq<char>, h: nat) -> Seq<Seq<char>>
    decreases h, 0int, 0int,
{
    let (open, close) = tags_spec(ns[i].node_data());
    let head = match open {
        Some(o) => seq![indent + o],
        None => Seq::empty(),
    };
    let tail = match close {
        Some(c) => seq![indent + c],
        None => Seq::empty(),
    };
    let body = if h == 0 {
        Seq::empty()
    } else {
        dump_children(ns, ns[i].child_list(), 0, indent + "  "@, (h - 1) as nat)
    };
    head + body + tail
}

/// The dumps of the children `cs[j..]`, in order.
pub open spec fn dump_children(
    ns: Seq<Node>,
    cs: Seq<NodeRef>,
    j: int,
    indent: Seq<char>,
    h: nat,
) -> Seq<Seq<char>>
    decreases h, 1int, cs.len() - j,
{
    if j < 0 || j >= cs.len() {
        Seq::empty()
    } else {
        dump_lines(ns, cs[j] as int, indent, h) + dump_children(ns, cs, j + 1, indent, h)
    }
}

impl Node {
    /// The lines that dump the subtree of `this`, one node per line, each
    /// child indented two spaces below its parent.
    pub fn dump(arena: &Arena, this: NodeRef) -> (res: Vec<String>)
        requires
            arena.wf(),
            bounded_in(arena.nodes(), this as int, arena.nodes().len()),
        ensures
            res@.map_values(|l: String| l@) == dump_lines(arena.nodes(), this as int, Seq::empty(), arena.nodes().len()),
    {
        let mut lines: Vec<String> = Vec::new();
        let indent = String::new();
        Node::internal_dump(arena, this, &indent, &mut lines, Ghost(arena.nodes().len()));
        proof {
            assert(lines@.map_values(|l: String| l@) =~= Seq::<Seq<char>>::empty() + dump_lines(
                arena.nodes(),
                this as int,
                Seq::empty(),
                arena.nodes().len(),
            ));
        }
        lines
    }

    fn internal_dump(arena: &Arena, this: NodeRef, indentation: &String, lines: &mut Vec<String>, Ghost(h): Ghost<nat>)
        requires
            arena.wf(),
            bounded_in(arena.nodes(), this as int, h),
        ensures
            final(lines)@.map_values(|l: String| l@) == old(lines)@.map_values(|l: String| l@)
                + dump_lines(arena.nodes(), this as int, indentation@, h),
        decreases h,
    {
        let ghost ns = arena.nodes();
        let ghost start = lines@.map_values(|l: String| l@);
        let (opening_tag, closing_tag) = arena.get(this).data.tags();
        if let Some(opening_tag) = opening_tag {
            lines.push(concat(indentation.as_str(), opening_tag.as_str()));
        }
        let ghost after_head = lines@.map_values(|l: String| l@);
        proof {
            assert(after_head =~= start + match tags_spec(ns[this as int].node_data()).0 {
                Some(o) => seq![indentation@ + o],
                None => Seq::<Seq<char>>::empty(),
            });
        }
        let deeper = concat(indentation.as_str(), "  ");
        let n = arena.get(this).children.len();
        proof {
            assert(node_ok(ns, this as int));
            assert(links_ok(ns, this as int));
        }
        if n > 0 {
            let ghost cs = ns[this as int].child_list();
            let mut j: usize = 0;
            while j < n
                invariant
                    0 <= j <= n,
                    h > 0,
                    arena.wf(),
                    ns == arena.nodes(),
                    n == cs.len(),
                    cs == ns[this as int].child_list(),
                    bounded_in(ns, this as int, h),
                    deeper@ == indentation@ + "  "@,
                    lines@.map_values(|l: String| l@) + dump_children(ns, cs, j as int, deeper@, (h - 1) as nat)
                        == after_head + dump_children(ns, cs, 0, deeper@, (h - 1) as nat),
                decreases n - j,
            {
                let c = arena.get(this).children[j];
                let ghost before_lines = lines@.map_values(|l: String| l@);
                proof {
                    assert(bounded_in(ns, cs[j as int] as int, (h - 1) as nat));
                }
                Node::internal_dump(arena, c, &deeper, lines, Ghost((h - 1) as nat));
                proof {
                    assert(dump_children(ns, cs, j as int, deeper@, (h - 1) as nat) == dump_lines(ns, c as int, deeper@, (h - 1) as nat) + dump_children(ns, cs, j + 1, deeper@, (h - 1) as nat));
                    assert(lines@.map_values(|l: String| l@) + dump_children(ns, cs, j + 1, deeper@, (h - 1) as nat)
                        =~= before_lines + dump_children(ns, cs, j as int, deeper@, (h - 1) as nat));
                }
                j += 1;
            }
        }
        let ghost after_body = lines@.map_values(|l: String| l@);
        if let Some(closing_tag) = closing_tag {
            lines.push(concat(indentation.as_str(), closing_tag.as_str()));
        }
        proof {
            let body = if h == 0 {
                Seq::<Seq<char>>::empty()
            } else {
                dump_children(ns, ns[this as int].child_list(), 0, indentation@ + "  "@, (h - 1) as nat)
            };
            if n == 0 && h > 0 {
                assert(body =~= Seq::<Seq<char>>::empty());
            }
            if h == 0 {
                assert(n == 0);
            }
            assert(after_body =~= after_head + body);
            let head = match tags_spec(ns[this as int].node_data()).0 {
                Some(o) => seq![indentation@ + o],
                None => Seq::<Seq<char>>::empty(),
            };
            let tail = match tags_spec(ns[this as int].node_data()).1 {
                Some(c) => seq![indentation@ + c],
                None => Seq::<Seq<char>>::empty(),
            };
            assert(lines@.map_values(|l: String| l@) =~= after_body + tail);
            assert(dump_lines(ns, this as int, indentation@, h) == head + body + tail);
            assert(lines@.map_values(|l: String| l@) =~= start + dump_lines(ns, this as int, indentation@, h));
        }
    }
}

} // verus!

verus! {

/// The ASCII uppercase of `c`.
pub open spec fn ascii_upper(c: char) -> char {
    if 'a' <= c && c <= 'z' {
        ((c as u32) - 32) as char
    } else {
        c
    }
}

/// The ASCII uppercase of `s`.
pub open spec fn ascii_upper_seq(s: Seq<char>) -> Seq<char> {
    s.map_values(|c: char| ascii_upper(c))
}

/// The ASCII uppercase of `s`.
fn to_ascii_uppercase(s: &str) -> (res: String)
    ensures
        res@ == ascii_upper_seq(s@),
{
    let cs = crate::text::chars_of(s);
    let mut res = String::new();
    let mut i: usize = 0;
    while i < cs.len()
        invariant
            i <= cs@.len(),
            cs@ == s@,
            res@ == ascii_upper_seq(s@).take(i as int),
        decreases cs@.len() - i,
    {
        let c = cs[i];
        let u = if 'a' <= c && c <= 'z' {
            ((c as u8) - 32) as char
        } else {
            c
        };
        crate::text::push_char(&mut res, u);
        i += 1;
        assert(res@ =~= ascii_upper_seq(s@).take(i as int));
    }
    assert(ascii_upper_seq(s@).take(cs@.len() as int) =~= ascii_upper_seq(s@));
    res
}

/// The node name of a node with data `d`.
pub open spec fn node_name_spec(d: NodeData) -> Seq<char> {
    match d {
        NodeData::Element { name, .. } => ascii_upper_seq(name.local@),
        NodeData::Doctype { name, .. } => name@,
        NodeData::CharacterData { variant: CharacterDataVariant::Text, .. } => "#text"@,
        NodeData::CharacterData { variant: CharacterDataVariant::Comment, .. } => "#comment"@,
        NodeData::Document => "#document"@,
        NodeData::DocumentFragment => "#document-fragment"@,
        _ => Seq::empty(),
    }
}

/// A short description of data `d`.
pub open spec fn data_description(d: NodeData) -> Seq<char> {
    match d {
        NodeData::Document => "Document"@,
        NodeData::Doctype { name, .. } => "DOCTYPE "@ + name@,
        NodeData::Element { name, .. } => "Element("@ + name.local@ + ")"@,
        NodeData::CharacterData { variant, .. } => match variant {
            CharacterDataVariant::Text => "Text"@,
            CharacterDataVariant::ProcessingInstruction { .. } => "ProcessingInstruction"@,
            CharacterDataVariant::Comment => "Comment"@,
        },
        NodeData::DocumentFragment => "DocumentFragment"@,
        NodeData::Attr { .. } => "Attr"@,
    }
}

impl NodeData {
    /// A short description of the data: its kind, with the name of a
    /// doctype or an element.
    pub fn to_string(&self) -> (res: String)
        ensures
            res@ == data_description(*self),
    {
        match self {
            NodeData::Document => owned("Document"),
            NodeData::Doctype { name, .. } => concat("DOCTYPE ", name.as_str()),
            NodeData::Element { name, .. } => {
                let open = concat("Element(", name.local.as_str());
                concat(open.as_str(), ")")
            },
            NodeData::CharacterData { variant, .. } => match variant {
                CharacterDataVariant::Text => owned("Text"),
                CharacterDataVariant::ProcessingInstruction { .. } => owned(
                    "ProcessingInstruction",
                ),
                CharacterDataVariant::Comment => owned("Comment"),
            },
            NodeData::DocumentFragment => owned("DocumentFragment"),
            NodeData::Attr { .. } => owned("Attr"),
        }
    }
}

impl Node {
    /// The node name: the uppercased local name of an element, the name of
    /// a doctype, or a fixed name for the other kinds of nodes that have
    /// one.
    pub fn node_name(&self) -> (res: String)
        requires
            !(self.node_data() is Attr),
            !(self.node_data() matches NodeData::CharacterData {
                variant: CharacterDataVariant::ProcessingInstruction { .. },
                ..
            }),
        ensures
            res@ == node_name_spec(self.node_data()),
    {
        match &self.data {
            NodeData::Element { name, .. } => to_ascii_uppercase(name.local.as_str()),
            NodeData::Doctype { name, .. } => owned(name.as_str()),
            NodeData::CharacterData { variant, .. } => match variant {
                CharacterDataVariant::Text => owned("#text"),
                CharacterDataVariant::Comment => owned("#comment"),
                CharacterDataVariant::ProcessingInstruction { .. } => String::new(),
            },
            NodeData::Document => owned("#document"),
            NodeData::DocumentFragment => owned("#document-fragment"),
            NodeData::Attr { .. } => String::new(),
        }
    }

    /// The parent node.
    pub fn parent_node(&self) -> (res: Option<NodeRef>)
        ensures
            res == self.parent_link(),
    {
        self.parent
    }

    /// The parent of `this`, where it is an element.
    pub fn parent_element(arena: &Arena, this: NodeRef) -> (res: Option<NodeRef>)
        requires
            arena.wf(),
            arena.valid(this),
        ensures
            res == (match arena.parent_of(this) {
                Some(p) => if arena.data_of(p).is_element_spec() {
                    Some(p)
                } else {
                    None::<NodeRef>
                },
                None => None::<NodeRef>,
            }),
    {
        proof {
            assert(node_ok(arena.nodes(), this as int));
        }
        match arena.get(this).parent {
            Some(parent) => {
                if arena.get(parent).is_element() {
                    Some(parent)
                } else {
                    None
                }
            },
            None => None,
        }
    }

    /// The children, in order.
    pub fn child_nodes(&self) -> (res: &Vec<NodeRef>)
        ensures
            res@ == self.child_list(),
    {
        &self.children
    }

    /// The node document of `this`: its document link, or `this` itself.
    pub fn node_document(arena: &Arena, this: NodeRef) -> (res: NodeRef)
        requires
            arena.wf(),
            arena.valid(this),
        ensures
            res == doc_of(arena.nodes(), this as int),
    {
        Node::document(arena, this)
    }

    /// A copy of the children of the node: the descendants that the
    /// adoption of a node reaches.
    pub fn shadow_including_inclusive_descendants(&self) -> (res: Vec<NodeRef>)
        ensures
            res@ == self.child_list(),
    {
        let mut res: Vec<NodeRef> = Vec::new();
        let mut i: usize = 0;
        while i < self.children.len()
            invariant
                i <= self.children@.len(),
                res@ == self.children@.take(i as int),
            decreases self.children@.len() - i,
        {
            res.push(self.children[i]);
            i += 1;
            assert(res@ =~= self.children@.take(i as int));
        }
        assert(self.children@.take(self.children@.len() as int) =~= self.children@);
        res
    }

    /// Appends `node` to the children of `this`.
    pub fn append_child(arena: &mut Arena, this: NodeRef, node: NodeRef)
        requires
            Self::insert_before_requires(old(arena), this, node, None),
        ensures
            final(arena).wf(),
            old(arena).data_of(node).is_fragment_spec() ==> final(arena).nodes() == old(arena).nodes(),
            !old(arena).data_of(node).is_fragment_spec() ==> {
                &&& inserted_at(
                    old(arena).nodes(),
                    final(arena).nodes(),
                    this as int,
                    node as int,
                    old(arena).children_of(this).len() as int,
                )
                &&& docs_adopted(
                    old(arena).nodes(),
                    final(arena).nodes(),
                    doc_of(old(arena).nodes(), doc_of(old(arena).nodes(), this as int)),
                    node as int,
                )
            },
    {
        Node::append(arena, this, node);
    }
}

} // verus!

verus! {

/// Appending makes the child the last child of the parent: it follows the
/// children the parent had, its parent is the parent, it has no next
/// sibling, and its previous sibling is the child that was last before.
pub proof fn lemma_append_makes_last_child(os: Seq<Node>, ns: Seq<Node>, this: int, child: int)
    requires
        0 <= this < os.len(),
        0 <= child < os.len(),
        child != this,
        inserted_at(os, ns, this, child, os[this].child_list().len() as int),
    ensures
        ns[this].child_list() == os[this].child_list().push(child as NodeRef),
        ns[this].last_link() == Some(child as NodeRef),
        ns[child].parent_link() == Some(this as NodeRef),
        ns[child].next_link() is None,
        ns[child].prev_link() == last_of(os[this].child_list()),
        ns[child].node_data() == os[child].node_data(),
{
    let cs = os[this].child_list();
    let _ = ns[this];
    let _ = ns[child];
    assert(cs.insert(cs.len() as int, child as NodeRef) =~= cs.push(child as NodeRef));
    assert(last_of(cs.push(child as NodeRef)) == Some(child as NodeRef));
    assert(before(cs, cs.len() as int) == last_of(cs));
}

} // verus!

verus! {

/// Two optional strings hold the same characters, or are both absent.
pub open spec fn same_opt_text(a: Option<String>, b: Option<String>) -> bool {
    opt_view(a) == opt_view(b)
}

/// Two qualified names are equal: prefix, namespace and local name.
pub open spec fn same_name(a: QualifiedName, b: QualifiedName) -> bool {
    &&& same_opt_text(a.prefix, b.prefix)
    &&& a.namespace == b.namespace
    &&& a.local@ == b.local@
}

/// Two attribute lists are equal, entry by entry.
pub open spec fn same_attributes(a: Seq<Attribute>, b: Seq<Attribute>) -> bool {
    &&& a.len() == b.len()
    &&& forall|i: int|
        0 <= i < a.len() ==> same_name(#[trigger] a[i].name, b[i].name) && a[i].value@
            == b[i].value@
}

/// Two kinds of character data are equal.
pub open spec fn same_variant(a: CharacterDataVariant, b: CharacterDataVariant) -> bool {
    match (a, b) {
        (CharacterDataVariant::Text, CharacterDataVariant::Text) => true,
        (CharacterDataVariant::Comment, CharacterDataVariant::Comment) => true,
        (
            CharacterDataVariant::ProcessingInstruction { target: x },
            CharacterDataVariant::ProcessingInstruction { target: y },
        ) => x@ == y@,
        _ => false,
    }
}

/// The data of two nodes match: doctypes by name and identifiers, elements
/// by name, namespace and attributes, attributes by namespace, local name
/// and value, character data by data and kind, and the other kinds by kind.
pub open spec fn same_data(a: NodeData, b: NodeData) -> bool {
    match (a, b) {
        (
            NodeData::Doctype { name: n1, public_id: p1, system_id: s1 },
            NodeData::Doctype { name: n2, public_id: p2, system_id: s2 },
        ) => n1@ == n2@ && p1@ == p2@ && s1@ == s2@,
        (
            NodeData::Element { name: n1, namespace: ns1, attributes: a1 },
            NodeData::Element { name: n2, namespace: ns2, attributes: a2 },
        ) => same_name(n1, n2) && ns1 == ns2 && same_attributes(a1@, a2@),
        (
            NodeData::Attr { namespace: ns1, local_name: l1, value: v1, .. },
            NodeData::Attr { namespace: ns2, local_name: l2, value: v2, .. },
        ) => ns1 == ns2 && l1@ == l2@ && v1@ == v2@,
        (
            NodeData::CharacterData { data: d1, variant: v1 },
            NodeData::CharacterData { data: d2, variant: v2 },
        ) => d1@ == d2@ && same_variant(v1, v2),
        (NodeData::Document, NodeData::Document) => true,
        (NodeData::DocumentFragment, NodeData::DocumentFragment) => true,
        _ => false,
    }
}

/// Two nodes are equal: their data match and they have the very same
/// children, in the same order.
pub open spec fn same_node(a: Node, b: Node) -> bool {
    same_data(a.node_data(), b.node_data()) && a.child_list() == b.child_list()
}

/// Node equality is an equivalence: every node equals itself, equality is
/// symmetric, and it is transitive.
pub proof fn lemma_node_equality_is_equivalence(a: Node, b: Node, c: Node)
    ensures
        same_node(a, a),
        same_node(a, b) ==> same_node(b, a),
        same_node(a, b) && same_node(b, c) ==> same_node(a, c),
{
    let (da, db, dc) = (a.node_data(), b.node_data(), c.node_data());
    if let (
        NodeData::Element { attributes: x, .. },
        NodeData::Element { attributes: y, .. },
        NodeData::Element { attributes: z, .. },
    ) = (da, db, dc) {
        assert(same_attributes(x@, y@) && same_attributes(y@, z@) ==> same_attributes(x@, z@)) by {
            if same_attributes(x@, y@) && same_attributes(y@, z@) {
                assert forall|i: int| 0 <= i < x@.len() implies same_name(
                    #[trigger] x@[i].name,
                    z@[i].name,
                ) && x@[i].value@ == z@[i].value@ by {
                    assert(same_name(x@[i].name, y@[i].name));
                    assert(same_name(y@[i].name, z@[i].name));
                }
            }
        }
    }
    if let (NodeData::Element { attributes: x, .. }, NodeData::Element { attributes: y, .. }) = (
        da,
        db,
    ) {
        assert(same_attributes(x@, y@) ==> same_attributes(y@, x@)) by {
            if same_attributes(x@, y@) {
                assert forall|i: int| 0 <= i < y@.len() implies same_name(
                    #[trigger] y@[i].name,
                    x@[i].name,
                ) && y@[i].value@ == x@[i].value@ by {
                    assert(same_name(x@[i].name, y@[i].name));
                }
            }
        }
    }
    if let NodeData::Element { attributes: x, .. } = da {
        assert(same_attributes(x@, x@));
    }
}

fn opt_text_eq(a: &Option<String>, b: &Option<String>) -> (res: bool)
    ensures
        res == same_opt_text(*a, *b),
{
    match (a, b) {
        (Some(x), Some(y)) => str_eq(x.as_str(), y.as_str()),
        (None, None) => true,
        _ => false,
    }
}

fn name_eq(a: &QualifiedName, b: &QualifiedName) -> (res: bool)
    ensures
        res == same_name(*a, *b),
{
    opt_text_eq(&a.prefix, &b.prefix) && a.namespace == b.namespace && str_eq(
        a.local.as_str(),
        b.local.as_str(),
    )
}

fn attributes_eq(a: &Vec<Attribute>, b: &Vec<Attribute>) -> (res: bool)
    ensures
        res == same_attributes(a@, b@),
{
    if a.len() != b.len() {
        return false;
    }
    let mut i: usize = 0;
    while i < a.len()
        invariant
            i <= a@.len(),
            a@.len() == b@.len(),
            forall|j: int|
                0 <= j < i ==> same_name(#[trigger] a@[j].name, b@[j].name) && a@[j].value@
                    == b@[j].value@,
        decreases a@.len() - i,
    {
        if !name_eq(&a[i].name, &b[i].name) || !str_eq(a[i].value.as_str(), b[i].value.as_str()) {
            return false;
        }
        i += 1;
    }
    true
}

fn variant_eq(a: &CharacterDataVariant, b: &CharacterDataVariant) -> (res: bool)
    ensures
        res == same_variant(*a, *b),
{
    match (a, b) {
        (CharacterDataVariant::Text, CharacterDataVariant::Text) => true,
        (CharacterDataVariant::Comment, CharacterDataVariant::Comment) => true,
        (
            CharacterDataVariant::ProcessingInstruction { target: x },
            CharacterDataVariant::ProcessingInstruction { target: y },
        ) => str_eq(x.as_str(), y.as_str()),
        _ => false,
    }
}

fn data_eq(a: &NodeData, b: &NodeData) -> (res: bool)
    ensures
        res == same_data(*a, *b),
{
    match (a, b) {
        (
            NodeData::Doctype { name: n1, public_id: p1, system_id: s1 },
            NodeData::Doctype { name: n2, public_id: p2, system_id: s2 },
        ) => str_eq(n1.as_str(), n2.as_str()) && str_eq(p1.as_str(), p2.as_str()) && str_eq(
            s1.as_str(),
            s2.as_str(),
        ),
        (
            NodeData::Element { name: n1, namespace: ns1, attributes: a1 },
            NodeData::Element { name: n2, namespace: ns2, attributes: a2 },
        ) => name_eq(n1, n2) && *ns1 == *ns2 && attributes_eq(a1, a2),
        (
            NodeData::Attr { namespace: ns1, local_name: l1, value: v1, .. },
            NodeData::Attr { namespace: ns2, local_name: l2, value: v2, .. },
        ) => *ns1 == *ns2 && str_eq(l1.as_str(), l2.as_str()) && str_eq(v1.as_str(), v2.as_str()),
        (
            NodeData::CharacterData { data: d1, variant: v1 },
            NodeData::CharacterData { data: d2, variant: v2 },
        ) => str_eq(d1.as_str(), d2.as_str()) && variant_eq(v1, v2),
        (NodeData::Document, NodeData::Document) => true,
        (NodeData::DocumentFragment, NodeData::DocumentFragment) => true,
        _ => false,
    }
}

impl PartialEq for Node {
    /// Equal data and the very same children, in the same order.
    fn eq(&self, other: &Self) -> (res: bool) {
        if !data_eq(&self.data, &other.data) || self.children.len() != other.children.len() {
            return false;
        }
        let mut i: usize = 0;
        while i < self.children.len()
            invariant
                i <= self.children@.len(),
                self.children@.len() == other.children@.len(),
                forall|j: int| 0 <= j < i ==> self.children@[j] == other.children@[j],
            decreases self.children@.len() - i,
        {
            if !Node::are_same(self.children[i], other.children[i]) {
                return false;
            }
            i += 1;
        }
        assert(self.children@ =~= other.children@);
        true
    }
}

impl vstd::std_specs::cmp::PartialEqSpecImpl for Node {
    open spec fn obeys_eq_spec() -> bool {
        true
    }

    open spec fn eq_spec(&self, other: &Self) -> bool {
        same_node(*self, *other)
    }
}

} // verus!

verus! {

/// Only text is refused as a child of a document among character data:
/// appending a comment or a processing instruction to a document passes
/// every step of pre-insertion validity, and appending a text fails with a
/// HierarchyRequestError.
pub proof fn lemma_document_takes_comments_but_not_text(ns: Seq<Node>, parent: int, node: int)
    requires
        0 <= parent < ns.len(),
        0 <= node < ns.len(),
        ns[parent].node_data() is Document,
        ns[node].node_data() is CharacterData,
    ensures
        (ns[node].node_data()->CharacterData_variant is Text) ==> pre_insertion_error(ns, parent, node, None)
            == Some(ErrorName::HierarchyRequestError),
        !(ns[node].node_data()->CharacterData_variant is Text) ==> pre_insertion_error(ns, parent, node, None)
            is None,
{
}

/// The hierarchy rules of pre-insertion validity, by node kind: only a
/// document, a fragment or an element takes children; a doctype goes only
/// into a document, and an attribute or a document goes nowhere; an element
/// or a fragment into a fragment or an element, without a reference child,
/// always passes.
pub proof fn lemma_pre_insertion_hierarchy(ns: Seq<Node>, parent: int, node: int, child: Option<NodeRef>)
    requires
        0 <= parent < ns.len(),
        0 <= node < ns.len(),
    ensures
        !(ns[parent].node_data() is Document || ns[parent].node_data() is DocumentFragment
            || ns[parent].node_data() is Element) ==> pre_insertion_error(ns, parent, node, child) == Some(
            ErrorName::HierarchyRequestError,
        ),
        (ns[parent].node_data() is DocumentFragment || ns[parent].node_data() is Element) && (
        ns[node].node_data() is Doctype || ns[node].node_data() is Attr || ns[node].node_data() is Document)
            && child is None ==> pre_insertion_error(ns, parent, node, child) == Some(
            ErrorName::HierarchyRequestError,
        ),
        (ns[parent].node_data() is DocumentFragment || ns[parent].node_data() is Element) && (
        ns[node].node_data() is Element || ns[node].node_data() is DocumentFragment) && child is None
            ==> pre_insertion_error(ns, parent, node, child) is None,
{
}

} // verus!
