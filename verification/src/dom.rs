//! The document object model: nodes kept in an arena, names, namespaces,
//! exceptions, ranges and mutation records.
use vstd::prelude::*;
use crate::text::owned;

pub mod arena;
pub mod dom_exception;

pub mod mutation_observer;
pub mod mutation_record;
pub mod node;
pub mod nodes;
pub mod ranges;
pub mod tree_order;


verus! {

/// A name with an optional prefix and namespace.
#[derive(PartialEq, Eq, PartialOrd, Ord, Hash, Debug, Clone)]
pub struct QualifiedName {
    pub prefix: Option<String>,
    pub namespace: Option<Namespace>,
    pub local: String,
}

impl QualifiedName {
    /// A name in the HTML namespace, without prefix.
    pub fn new(local: String) -> (res: Self)
        ensures
            res.prefix is None,
            res.namespace == Some(Namespace::Html),
            res.local == local,
    {
        QualifiedName { prefix: None, namespace: Some(Namespace::Html), local }
    }
}

/// An attribute: a qualified name and a value.
#[derive(PartialEq, Eq, PartialOrd, Ord, Hash, Debug, Clone)]
pub struct Attribute {
    pub name: QualifiedName,
    pub value: String,
}

/// The namespaces the DOM knows about.
#[derive(PartialEq, Eq, Structural, PartialOrd, Ord, Hash, Debug, Clone, Copy)]
pub enum Namespace {
    Html,
    MathMl,
    Svg,
    XLink,
    Xml,
    XmlNs,
}

/// The URI that names namespace `ns`.
pub open spec fn namespace_uri(ns: Namespace) -> Seq<char> {
    match ns {
        Namespace::Html => "http://www.w3.org/1999/xhtml"@,
        Namespace::MathMl => "http://www.w3.org/1998/Math/MathML"@,
        Namespace::Svg => "http://www.w3.org/2000/svg"@,
        Namespace::XLink => "http://www.w3.org/1999/xlink"@,
        Namespace::Xml => "http://www.w3.org/XML/1998/namespace"@,
        Namespace::XmlNs => "http://www.w3.org/2000/xmlns/"@,
    }
}

impl Namespace {
    /// The namespace's URI.
    pub fn to_string(&self) -> (res: String)
        ensures
            res@ == namespace_uri(*self),
    {
        match self {
            Namespace::Html => owned("http://www.w3.org/1999/xhtml"),
            Namespace::MathMl => owned("http://www.w3.org/1998/Math/MathML"),
            Namespace::Svg => owned("http://www.w3.org/2000/svg"),
            Namespace::XLink => owned("http://www.w3.org/1999/xlink"),
            Namespace::Xml => owned("http://www.w3.org/XML/1998/namespace"),
            Namespace::XmlNs => owned("http://www.w3.org/2000/xmlns/"),
        }
    }
}

} // verus!
