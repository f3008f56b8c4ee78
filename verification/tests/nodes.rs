use lib::dom::nodes::{
    Attr, Document, DocumentFragment, Element, ElementImpl, HtmlElement, LiveNodeList, NodeImpl,
    NodeList, NodeType,
};
use lib::dom::Namespace;

#[test]
fn element_names() {
    let plain = Element::create(Document::new(), "circle", Some(Namespace::Svg), None, None);
    assert_eq!(plain.qualified_name(), "circle");
    assert_eq!(plain.local_name(), "circle");
    assert_eq!(plain.namespace_uri(), Some(Namespace::Svg));
    assert_eq!(plain.prefix(), None);
    assert_eq!(plain.node_type(), NodeType::Element);

    let prefixed =
        Element::create(Document::new(), "circle", Some(Namespace::Svg), Some(String::from("svg")), None);
    assert_eq!(prefixed.qualified_name(), "svg:circle");
    assert_eq!(prefixed.prefix(), Some(String::from("svg")));

    let html = HtmlElement::new("p");
    assert_eq!(html.local_name(), "p");
    assert_eq!(html.namespace_uri(), Some(Namespace::Html));
    assert_eq!(html.prefix(), None);
}

#[test]
fn node_types() {
    assert_eq!(Document::new().node_type(), NodeType::Document);
    assert_eq!(DocumentFragment::new().node_type(), NodeType::DocumentFragment);
    let attr = Attr::new(None, None, String::from("id"), String::from("x"));
    assert_eq!(attr.node_type(), NodeType::Attr);
}

#[test]
fn attributes() {
    let mut attr = Attr::new(
        Some(Namespace::XLink),
        Some(String::from("xlink")),
        String::from("href"),
        String::from("#a"),
    );
    assert_eq!(attr.namespace_uri(), &Some(Namespace::XLink));
    assert_eq!(attr.prefix(), &Some(String::from("xlink")));
    assert_eq!(attr.local_name(), "href");
    assert_eq!(attr.value(), "#a");
    assert!(attr.owner_element().is_none());
    assert!(attr.specified());
    attr.set_value(String::from("#b"));
    assert_eq!(attr.value(), "#b");
    assert_eq!(attr.local_name(), "href");
}

#[test]
fn node_lists() {
    let list = NodeList::new(vec![4, 2, 9]);
    assert_eq!(list.length(), 3);
    assert_eq!(list.item(1), Some(2));
    assert_eq!(list.item(3), None);
    assert_eq!(list.to_vec(), vec![4, 2, 9]);

    let live = LiveNodeList::new(0, |_: usize| true);
    assert_eq!(live.length(), 0);
    assert_eq!(live.item(0), None);
}
