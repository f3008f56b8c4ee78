//! Node interfaces of the DOM: attributes, documents, fragments, elements
//! and node lists.
use vstd::prelude::*;
use super::arena::NodeRef;
use super::Namespace;
use super::node::opt_view;
use crate::text::{concat, owned};

verus! {

/// The type of a node.
#[derive(PartialEq, Eq, Structural, Debug, Clone, Copy)]
pub enum NodeType {
    Element,
    Attr,
    Text,
    CDataSection,
    ProcessingInstruction,
    Comment,
    Document,
    DocumentType,
    DocumentFragment,
}

/// What every kind of node offers.
pub trait NodeImpl {
    fn node_type(&self) -> NodeType;
}

/// What every kind of element offers.
pub trait ElementImpl {
    fn namespace_uri(&self) -> Option<Namespace>;

    fn prefix(&self) -> Option<String>;

    fn local_name(&self) -> String;
}

/// A document.
#[derive(PartialEq, Eq, Structural, Debug, Clone)]
pub struct Document;

impl Document {
    pub fn new() -> (res: Self)
        ensures
            res == Document,
    {
        Document
    }
}

impl NodeImpl for Document {
    fn node_type(&self) -> (res: NodeType)
        ensures
            res == NodeType::Document,
    {
        NodeType::Document
    }
}

/// A document fragment.
#[derive(PartialEq, Eq, Structural, Debug, Clone)]
pub struct DocumentFragment;

impl DocumentFragment {
    pub fn new() -> (res: Self)
        ensures
            res == DocumentFragment,
    {
        DocumentFragment
    }
}

impl NodeImpl for DocumentFragment {
    fn node_type(&self) -> (res: NodeType)
        ensures
            res == NodeType::DocumentFragment,
    {
        NodeType::DocumentFragment
    }
}

/// An element.
#[derive(PartialEq, Eq, Debug)]
pub struct Element {
    document: Document,
    namespace: Option<Namespace>,
    namespace_prefix: Option<String>,
    local_name: String,
    is: Option<String>,
    attribute_list: Vec<Attr>,
}

/// The qualified name of an element or attribute: the prefix and a colon
/// before the local name, where there is a prefix.
pub open spec fn qualified_name_spec(prefix: Option<String>, local_name: Seq<char>) -> Seq<char> {
    match prefix {
        Some(p) => p@ + ":"@ + local_name,
        None => local_name,
    }
}

impl Element {
    pub closed spec fn namespace_spec(&self) -> Option<Namespace> {
        self.namespace
    }

    pub closed spec fn prefix_spec(&self) -> Option<String> {
        self.namespace_prefix
    }

    pub closed spec fn local_name_spec(&self) -> Seq<char> {
        self.local_name@
    }

    pub closed spec fn is_spec(&self) -> Option<String> {
        self.is
    }

    pub closed spec fn attribute_count(&self) -> nat {
        self.attribute_list@.len()
    }

    /// A new element of `document` without attributes.
    pub fn create(
        document: Document,
        local_name: &str,
        namespace: Option<Namespace>,
        prefix: Option<String>,
        is: Option<String>,
    ) -> (res: Element)
        ensures
            res.namespace_spec() == namespace,
            res.prefix_spec() == prefix,
            res.local_name_spec() == local_name@,
            res.is_spec() == is,
            res.attribute_count() == 0,
    {
        Element {
            document,
            namespace,
            namespace_prefix: prefix,
            local_name: owned(local_name),
            is,
            attribute_list: Vec::new(),
        }
    }

    /// The qualified name.
    pub fn qualified_name(&self) -> (res: String)
        ensures
            res@ == qualified_name_spec(self.prefix_spec(), self.local_name_spec()),
    {
        match &self.namespace_prefix {
            Some(prefix) => {
                let with_colon = concat(prefix.as_str(), ":");
                concat(with_colon.as_str(), self.local_name.as_str())
            },
            None => owned(self.local_name.as_str()),
        }
    }
}

impl ElementImpl for Element {
    fn namespace_uri(&self) -> (res: Option<Namespace>)
        ensures
            res == self.namespace_spec(),
    {
        self.namespace
    }

    fn prefix(&self) -> (res: Option<String>)
        ensures
            opt_view(res) == opt_view(self.prefix_spec()),
    {
        match &self.namespace_prefix {
            Some(p) => Some(owned(p.as_str())),
            None => None,
        }
    }

    fn local_name(&self) -> (res: String)
        ensures
            res@ == self.local_name_spec(),
    {
        owned(self.local_name.as_str())
    }
}

impl NodeImpl for Element {
    fn node_type(&self) -> (res: NodeType)
        ensures
            res == NodeType::Element,
    {
        NodeType::Element
    }
}

/// An element of the HTML namespace.
#[derive(PartialEq, Eq, Debug, Clone)]
pub struct HtmlElement {
    namespace: Option<Namespace>,
    namespace_prefix: Option<String>,
    local_name: String,
}

impl HtmlElement {
    pub closed spec fn local_name_spec(&self) -> Seq<char> {
        self.local_name@
    }

    pub closed spec fn namespace_spec(&self) -> Option<Namespace> {
        self.namespace
    }

    pub closed spec fn prefix_spec(&self) -> Option<String> {
        self.namespace_prefix
    }

    /// An HTML element with local name `local_name`.
    pub fn new(local_name: &str) -> (res: Self)
        ensures
            res.local_name_spec() == local_name@,
            res.namespace_spec() == Some(Namespace::Html),
            res.prefix_spec() is None,
    {
        HtmlElement {
            namespace: Some(Namespace::Html),
            namespace_prefix: None,
            local_name: owned(local_name),
        }
    }
}

impl ElementImpl for HtmlElement {
    fn namespace_uri(&self) -> (res: Option<Namespace>)
        ensures
            res == self.namespace_spec(),
    {
        self.namespace
    }

    fn prefix(&self) -> (res: Option<String>)
        ensures
            opt_view(res) == opt_view(self.prefix_spec()),
    {
        match &self.namespace_prefix {
            Some(p) => Some(owned(p.as_str())),
            None => None,
        }
    }

    fn local_name(&self) -> (res: String)
        ensures
            res@ == self.local_name_spec(),
    {
        owned(self.local_name.as_str())
    }
}

/// An attribute node.
#[derive(PartialEq, Eq, Debug)]
pub struct Attr {
    namespace: Option<Namespace>,
    namespace_prefix: Option<String>,
    local_name: String,
    value: String,
    element: Option<Element>,
}

impl Attr {
    pub closed spec fn namespace_spec(&self) -> Option<Namespace> {
        self.namespace
    }

    pub closed spec fn prefix_spec(&self) -> Option<String> {
        self.namespace_prefix
    }

    pub closed spec fn local_name_spec(&self) -> Seq<char> {
        self.local_name@
    }

    pub closed spec fn value_spec(&self) -> Seq<char> {
        self.value@
    }

    pub closed spec fn element_spec(&self) -> Option<Element> {
        self.element
    }

    /// An attribute without owner element.
    pub fn new(
        namespace: Option<Namespace>,
        prefix: Option<String>,
        local_name: String,
        value: String,
    ) -> (res: Self)
        ensures
            res.namespace_spec() == namespace,
            res.prefix_spec() == prefix,
            res.local_name_spec() == local_name@,
            res.value_spec() == value@,
            res.element_spec() is None,
    {
        Attr { namespace, namespace_prefix: prefix, local_name, value, element: None }
    }

    pub fn namespace_uri(&self) -> (res: &Option<Namespace>)
        ensures
            *res == self.namespace_spec(),
    {
        &self.namespace
    }

    pub fn prefix(&self) -> (res: &Option<String>)
        ensures
            *res == self.prefix_spec(),
    {
        &self.namespace_prefix
    }

    pub fn local_name(&self) -> (res: &String)
        ensures
            res@ == self.local_name_spec(),
    {
        &self.local_name
    }

    pub fn value(&self) -> (res: &String)
        ensures
            res@ == self.value_spec(),
    {
        &self.value
    }

    pub fn set_value(&mut self, value: String)
        ensures
            final(self).value_spec() == value@,
            final(self).namespace_spec() == old(self).namespace_spec(),
            final(self).prefix_spec() == old(self).prefix_spec(),
            final(self).local_name_spec() == old(self).local_name_spec(),
            final(self).element_spec() == old(self).element_spec(),
    {
        self.value = value;
    }

    pub fn owner_element(&self) -> (res: Option<&Element>)
        ensures
            match self.element_spec() {
                Some(e) => res == Some(&e),
                None => res is None,
            },
    {
        self.element.as_ref()
    }

    /// Always true.
    pub fn specified(&self) -> (res: bool)
        ensures
            res,
    {
        true
    }
}

impl NodeImpl for Attr {
    fn node_type(&self) -> (res: NodeType)
        ensures
            res == NodeType::Attr,
    {
        NodeType::Attr
    }
}

/// A list of nodes.
#[derive(PartialEq, Eq, Debug, Clone)]
pub struct NodeList {
    elements: Vec<NodeRef>,
}

impl View for NodeList {
    type V = Seq<NodeRef>;

    closed spec fn view(&self) -> Seq<NodeRef> {
        self.elements@
    }
}

impl NodeList {
    /// The list of `elements`.
    pub fn new(elements: Vec<NodeRef>) -> (res: Self)
        ensures
            res@ == elements@,
    {
        NodeList { elements }
    }

    /// The node at `index`, if there is one.
    pub fn item(&self, index: usize) -> (res: Option<NodeRef>)
        ensures
            res == (if index < self@.len() {
                Some(self@[index as int])
            } else {
                None::<NodeRef>
            }),
    {
        if index < self.elements.len() {
            Some(self.elements[index])
        } else {
            None
        }
    }

    /// The number of nodes.
    pub fn length(&self) -> (res: usize)
        ensures
            res == self@.len(),
    {
        self.elements.len()
    }

    /// The nodes, in order.
    pub fn to_vec(&self) -> (res: Vec<NodeRef>)
        ensures
            res@ == self@,
    {
        let mut res: Vec<NodeRef> = Vec::new();
        let mut i: usize = 0;
        while i < self.elements.len()
            invariant
                i <= self.elements@.len(),
                res@ == self.elements@.take(i as int),
            decreases self.elements@.len() - i,
        {
            res.push(self.elements[i]);
            i += 1;
            assert(res@ =~= self.elements@.take(i as int));
        }
        assert(self.elements@.take(self.elements@.len() as int) =~= self.elements@);
        res
    }
}

/// A live list of the nodes under a root that pass a filter.
pub struct LiveNodeList<F> {
    collection: Vec<NodeRef>,
    root: NodeRef,
    filter: F,
}

impl<F> LiveNodeList<F> {
    pub closed spec fn collection_spec(&self) -> Seq<NodeRef> {
        self.collection@
    }

    pub closed spec fn root_spec(&self) -> NodeRef {
        self.root
    }

    /// A list over the subtree of `root`, with filter `filter`; it holds no
    /// node yet.
    pub fn new(root: NodeRef, filter: F) -> (res: Self)
        ensures
            res.collection_spec() == Seq::<NodeRef>::empty(),
            res.root_spec() == root,
    {
        LiveNodeList { collection: Vec::new(), root, filter }
    }

    /// The number of nodes in the collection.
    pub fn length(&self) -> (res: usize)
        ensures
            res == self.collection_spec().len(),
    {
        self.collection.len()
    }

    /// The node at `index` in the collection, if there is one.
    pub fn item(&self, index: usize) -> (res: Option<NodeRef>)
        ensures
            res == (if index < self.collection_spec().len() {
                Some(self.collection_spec()[index as int])
            } else {
                None::<NodeRef>
            }),
    {
        if index < self.collection.len() {
            Some(self.collection[index])
        } else {
            None
        }
    }
}

} // verus!
