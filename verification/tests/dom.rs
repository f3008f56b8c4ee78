use lib::dom::arena::NodeRef;
use lib::dom::dom_exception::{DomException, ErrorName};
use lib::dom::node::{Arena, CharacterDataVariant, Node, NodeData};
use lib::dom::ranges::abstract_range::{AbstractRange, BoundaryPoint, BoundaryPointPosition};
use lib::dom::ranges::static_range::StaticRange;
use lib::dom::{Namespace, QualifiedName};

fn element(arena: &mut Arena, document: NodeRef, tag: &str) -> NodeRef {
    arena.allocate(Node::new(
        Some(document),
        NodeData::Element {
            name: QualifiedName::new(String::from(tag)),
            namespace: Some(Namespace::Html),
            attributes: vec![],
        },
    ))
}

fn text(arena: &mut Arena, document: NodeRef, data: &str) -> NodeRef {
    arena.allocate(Node::new(
        Some(document),
        NodeData::CharacterData { data: String::from(data), variant: CharacterDataVariant::Text },
    ))
}

fn doctype(arena: &mut Arena, document: NodeRef) -> NodeRef {
    arena.allocate(Node::new(
        Some(document),
        NodeData::Doctype {
            name: String::from("html"),
            public_id: String::new(),
            system_id: String::new(),
        },
    ))
}

#[test]
fn append_sets_the_tree_links() {
    let mut arena = Arena::new();
    let document = arena.allocate(Node::new(None, NodeData::Document));
    let html = element(&mut arena, document, "html");
    let head = element(&mut arena, document, "head");
    let body = element(&mut arena, document, "body");
    Node::append(&mut arena, document, html);
    Node::append(&mut arena, html, head);
    Node::append_child(&mut arena, html, body);

    assert_eq!(arena.len(), 4);
    assert_eq!(arena.get(html).parent(), Some(document));
    assert_eq!(arena.get(html).children(), &vec![head, body]);
    assert_eq!(arena.get(html).first_child(), Some(head));
    assert_eq!(arena.get(html).last_child(), Some(body));
    assert_eq!(arena.get(head).next_sibling(), Some(body));
    assert_eq!(arena.get(body).previous_sibling(), Some(head));
    assert_eq!(arena.get(head).previous_sibling(), None);
    assert_eq!(arena.get(body).next_sibling(), None);
    assert_eq!(Node::index(&arena, head), 0);
    assert_eq!(Node::index(&arena, body), 1);
    assert_eq!(Node::root(&arena, body), document);
    assert_eq!(Node::document(&arena, body), document);
    assert_eq!(Node::node_document(&arena, document), document);
    assert!(Node::have_same_root(&arena, head, body));
    assert_eq!(Node::inclusive_anscestors(&arena, body), vec![body, html, document]);
    assert_eq!(Node::inclusive_anscestors(&arena, document), vec![document]);
    assert_eq!(Node::parent_element(&arena, body), Some(html));
    assert_eq!(Node::parent_element(&arena, html), None);
    assert_eq!(arena.get(body).parent_node(), Some(html));
    assert_eq!(arena.get(html).child_nodes(), &vec![head, body]);
    assert_eq!(arena.get(html).shadow_including_inclusive_descendants(), vec![head, body]);
    assert_eq!(Node::length(&arena, html), 2);
}

#[test]
fn insert_before_puts_the_node_in_front_of_the_child() {
    let mut arena = Arena::new();
    let document = arena.allocate(Node::new(None, NodeData::Document));
    let ul = element(&mut arena, document, "ul");
    let first = element(&mut arena, document, "li");
    let second = element(&mut arena, document, "li");
    Node::append(&mut arena, document, ul);
    Node::append(&mut arena, ul, second);
    Node::insert_before(&mut arena, ul, first, Some(second));

    assert_eq!(arena.get(ul).children(), &vec![first, second]);
    assert_eq!(arena.get(first).next_sibling(), Some(second));
    assert_eq!(arena.get(second).previous_sibling(), Some(first));
    assert_eq!(arena.get(ul).first_child(), Some(first));
    assert_eq!(Node::index(&arena, second), 1);
}

#[test]
fn inserting_an_empty_fragment_changes_nothing() {
    let mut arena = Arena::new();
    let document = arena.allocate(Node::new(None, NodeData::Document));
    let div = element(&mut arena, document, "div");
    let fragment = arena.allocate(Node::new(Some(document), NodeData::DocumentFragment));
    Node::append(&mut arena, document, div);
    Node::append(&mut arena, div, fragment);
    assert!(arena.get(div).children().is_empty());
    assert_eq!(arena.get(fragment).parent(), None);
}

#[test]
fn pre_insertion_validity_errors() {
    let mut arena = Arena::new();
    let document = arena.allocate(Node::new(None, NodeData::Document));
    let html = element(&mut arena, document, "html");
    let other = element(&mut arena, document, "body");
    let words = text(&mut arena, document, "words");
    let dt = doctype(&mut arena, document);
    Node::append(&mut arena, document, html);

    let hierarchy = Err(DomException::from(ErrorName::HierarchyRequestError));
    // A text node cannot hold children.
    assert_eq!(Node::ensure_pre_insertion_validity(&arena, words, other, None), hierarchy);
    // A document cannot hold text.
    assert_eq!(Node::ensure_pre_insertion_validity(&arena, document, words, None), hierarchy);
    // A doctype goes into a document only.
    assert_eq!(Node::ensure_pre_insertion_validity(&arena, html, dt, None), hierarchy);
    // A document holds one element.
    assert_eq!(Node::ensure_pre_insertion_validity(&arena, document, other, None), hierarchy);
    // A doctype cannot follow the element.
    assert_eq!(Node::ensure_pre_insertion_validity(&arena, document, dt, None), hierarchy);
    // The reference child must be a child of the parent.
    assert_eq!(
        Node::ensure_pre_insertion_validity(&arena, other, words, Some(html)),
        Err(DomException::from(ErrorName::NotFoundError))
    );
    // These are fine.
    assert_eq!(Node::ensure_pre_insertion_validity(&arena, html, words, None), Ok(()));
    assert_eq!(Node::ensure_pre_insertion_validity(&arena, document, dt, Some(html)), Ok(()));
}

#[test]
fn exception_names_codes_and_messages() {
    let e = DomException::from(ErrorName::HierarchyRequestError);
    assert_eq!(e.code, 3);
    assert_eq!(e.code, DomException::HIERARCHY_REQUEST_ERR);
    assert_eq!(e.message, "The operation would yield an incorrect node tree.");
    let e = DomException::from(ErrorName::NotFoundError);
    assert_eq!(e.code, 8);
    assert_eq!(e.name, ErrorName::NotFoundError);
    assert_eq!(DomException::from(ErrorName::InvalidNodeTypeError).code, 24);
    assert_eq!(DomException::from(ErrorName::OptOutError).code, 0);
}

#[test]
fn dump_lists_the_subtree() {
    let mut arena = Arena::new();
    let document = arena.allocate(Node::new(None, NodeData::Document));
    let dt = doctype(&mut arena, document);
    let html = element(&mut arena, document, "html");
    let body = element(&mut arena, document, "body");
    let words = text(&mut arena, document, "  hello \n");
    Node::append(&mut arena, document, dt);
    Node::append(&mut arena, document, html);
    Node::append(&mut arena, html, body);
    Node::append(&mut arena, body, words);
    assert_eq!(
        Node::dump(&arena, document),
        vec![
            String::from("Document"),
            String::from("  <!DOCTYPE html>"),
            String::from("  <html>"),
            String::from("    <body>"),
            String::from("      #text \"hello\""),
            String::from("    \""),
            String::from("  \""),
            String::from("\""),
        ]
    );
}

#[test]
fn names_and_descriptions() {
    let mut arena = Arena::new();
    let document = arena.allocate(Node::new(None, NodeData::Document));
    let div = element(&mut arena, document, "div");
    let words = text(&mut arena, document, "abc");
    let dt = doctype(&mut arena, document);
    assert_eq!(arena.get(div).node_name(), "DIV");
    assert_eq!(arena.get(words).node_name(), "#text");
    assert_eq!(arena.get(document).node_name(), "#document");
    assert_eq!(arena.get(dt).node_name(), "html");
    assert_eq!(arena.get(div).data.to_string(), "Element(div)");
    assert_eq!(arena.get(dt).data.to_string(), "DOCTYPE html");
    assert_eq!(arena.get(words).data.to_string(), "Text");
    assert_eq!(Node::length(&arena, words), 3);
    assert_eq!(Node::length(&arena, dt), 0);
    assert_eq!(arena.get(div).element_tag_name(), Some("div"));
    assert!(arena.get(div).is_element_with_tag("div"));
    assert!(arena.get(div).is_element_with_one_of_tags(&["p", "div"]));
    assert!(!arena.get(words).is_element_with_tag("div"));
    assert!(arena.get(div).is_special_tag());
    assert!(!arena.get(words).is_special_tag());
    assert_eq!(Namespace::Svg.to_string(), "http://www.w3.org/2000/svg");
}

#[test]
fn boundary_points_and_static_ranges() {
    let mut arena = Arena::new();
    let document = arena.allocate(Node::new(None, NodeData::Document));
    let words = text(&mut arena, document, "hello");
    let dt = doctype(&mut arena, document);

    let a = BoundaryPoint::new(words, 1);
    let b = BoundaryPoint::new(words, 3);
    assert_eq!(a.position(&arena, b), BoundaryPointPosition::Before);
    assert_eq!(b.position(&arena, a), BoundaryPointPosition::After);
    assert_eq!(a.position(&arena, a), BoundaryPointPosition::Equal);
    assert!(b.verify_correctness(&arena));
    assert!(!BoundaryPoint::new(words, 6).verify_correctness(&arena));

    let range = StaticRange::new(&arena, words, 1, words, 3).unwrap();
    assert_eq!(*range.start(), a);
    assert_eq!(*range.end(), b);
    assert!(!range.collapsed());
    assert!(range.is_valid(&arena));
    let backwards = StaticRange::new(&arena, words, 3, words, 1).unwrap();
    assert!(!backwards.is_valid(&arena));
    let collapsed = StaticRange::new(&arena, words, 2, words, 2).unwrap();
    assert!(collapsed.collapsed());

    assert_eq!(
        StaticRange::new(&arena, dt, 0, words, 0).err(),
        Some(DomException::from(ErrorName::InvalidNodeTypeError))
    );
}

#[test]
fn node_equality_compares_data_and_children() {
    let mut arena = Arena::new();
    let document = arena.allocate(Node::new(None, NodeData::Document));
    let a = element(&mut arena, document, "div");
    let b = element(&mut arena, document, "div");
    let c = element(&mut arena, document, "span");
    let t1 = text(&mut arena, document, "x");
    let t2 = text(&mut arena, document, "x");
    let t3 = text(&mut arena, document, "y");
    assert!(*arena.get(a) == *arena.get(b));
    assert!(*arena.get(a) != *arena.get(c));
    assert!(*arena.get(t1) == *arena.get(t2));
    assert!(*arena.get(t1) != *arena.get(t3));
    assert!(*arena.get(t1) != *arena.get(a));
    Node::append(&mut arena, a, t1);
    // Children are compared by identity: `b` has no child yet.
    assert!(*arena.get(a) != *arena.get(b));
    Node::append(&mut arena, b, t2);
    // Equal data, but different children.
    assert!(*arena.get(a) != *arena.get(b));
}

#[test]
fn tree_order_follows_parents_then_earlier_siblings() {
    let mut arena = Arena::new();
    let document = arena.allocate(Node::new(None, NodeData::Document));
    let html = element(&mut arena, document, "html");
    let head = element(&mut arena, document, "head");
    let title = element(&mut arena, document, "title");
    let body = element(&mut arena, document, "body");
    let p = element(&mut arena, document, "p");
    let other_document = arena.allocate(Node::new(None, NodeData::Document));
    Node::append(&mut arena, document, html);
    Node::append(&mut arena, html, head);
    Node::append(&mut arena, head, title);
    Node::append(&mut arena, html, body);
    Node::append(&mut arena, body, p);

    assert!(Node::is_ancestor_of(&arena, html, p));
    assert!(Node::is_ancestor_of(&arena, document, title));
    assert!(!Node::is_ancestor_of(&arena, p, html));
    assert!(!Node::is_ancestor_of(&arena, head, p));
    assert!(!Node::is_ancestor_of(&arena, body, body));

    assert!(Node::is_child_of(&arena, head, html));
    assert!(!Node::is_child_of(&arena, title, html));
    assert!(!Node::is_child_of(&arena, document, html));

    assert!(Node::is_preceding(&arena, html, head));
    assert!(Node::is_preceding(&arena, title, body));
    assert!(Node::is_preceding(&arena, title, p));
    assert!(!Node::is_preceding(&arena, p, title));
    assert!(!Node::is_preceding(&arena, p, p));
    assert!(Node::is_following(&arena, p, title));
    assert!(Node::is_following(&arena, body, head));
    assert!(!Node::is_following(&arena, head, body));
    assert!(Node::is_following(&arena, head, html));
    assert!(!Node::is_following(&arena, html, head));

    assert!(!Node::is_preceding(&arena, other_document, p));
    assert!(!Node::is_following(&arena, other_document, p));
}

#[test]
fn boundary_points_in_different_nodes_follow_tree_order() {
    let mut arena = Arena::new();
    let document = arena.allocate(Node::new(None, NodeData::Document));
    let html = element(&mut arena, document, "html");
    let head = element(&mut arena, document, "head");
    let body = element(&mut arena, document, "body");
    let p = element(&mut arena, document, "p");
    Node::append(&mut arena, document, html);
    Node::append(&mut arena, html, head);
    Node::append(&mut arena, html, body);
    Node::append(&mut arena, body, p);

    let in_p = BoundaryPoint::new(p, 0);
    // The child of html on the way to p is body, at index 1.
    assert_eq!(BoundaryPoint::new(html, 0).position(&arena, in_p), BoundaryPointPosition::Before);
    assert_eq!(BoundaryPoint::new(html, 1).position(&arena, in_p), BoundaryPointPosition::Before);
    assert_eq!(BoundaryPoint::new(html, 2).position(&arena, in_p), BoundaryPointPosition::After);
    assert_eq!(in_p.position(&arena, BoundaryPoint::new(html, 2)), BoundaryPointPosition::Before);
    assert_eq!(in_p.position(&arena, BoundaryPoint::new(html, 0)), BoundaryPointPosition::After);
    assert_eq!(BoundaryPoint::new(head, 0).position(&arena, in_p), BoundaryPointPosition::Before);
    assert_eq!(in_p.position(&arena, BoundaryPoint::new(head, 0)), BoundaryPointPosition::After);

    let range = StaticRange::new(&arena, head, 0, p, 0).unwrap();
    assert!(range.is_valid(&arena));
    let backwards = StaticRange::new(&arena, p, 0, head, 0).unwrap();
    assert!(!backwards.is_valid(&arena));
}

#[test]
fn adopting_a_node_moves_it_and_its_children_to_the_document() {
    let mut arena = Arena::new();
    let first = arena.allocate(Node::new(None, NodeData::Document));
    let second = arena.allocate(Node::new(None, NodeData::Document));
    let div = element(&mut arena, second, "div");
    let span = element(&mut arena, second, "span");
    Node::append(&mut arena, div, span);
    Node::adopt(&mut arena, first, div);
    assert_eq!(Node::document(&arena, div), first);
    assert_eq!(Node::document(&arena, span), first);
}

#[test]
fn a_reference_child_without_parent_is_not_found() {
    let mut arena = Arena::new();
    let document = arena.allocate(Node::new(None, NodeData::Document));
    let html = element(&mut arena, document, "html");
    let div = element(&mut arena, document, "div");
    let loose = element(&mut arena, document, "p");
    Node::append(&mut arena, document, html);
    assert_eq!(
        Node::ensure_pre_insertion_validity(&arena, html, div, Some(loose)),
        Err(DomException::from(ErrorName::NotFoundError))
    );
}
