use lib::dom::node::{Arena, Node, NodeData};
use lib::dom::{Namespace, QualifiedName};
use lib::dom::arena::NodeRef;
use lib::tree_construction::{
    is_parser_whitespace, ListOfActiveFormattingElements, Position, StackOfOpenElements,
};

fn element(arena: &mut Arena, document: NodeRef, tag: &str) -> NodeRef {
    arena.allocate(Node::new(
        Some(document),
        NodeData::Element {
            name: QualifiedName::new(String::from(tag)),
            namespace: Some(Namespace::Html),
            attributes: vec![],
        },
    ))
}

#[test]
fn stack_push_pop_and_current_node() {
    let mut stack = StackOfOpenElements::new();
    assert!(stack.is_empty());
    assert_eq!(stack.current_node(), None);
    stack.push(3);
    stack.push(7);
    assert_eq!(stack.current_node(), Some(7));
    assert_eq!(stack.adjusted_current_node(), Some(7));
    assert_eq!(stack.first(), Some(3));
    stack.pop();
    assert_eq!(stack.current_node(), Some(3));
    stack.pop();
    stack.pop();
    assert!(stack.is_empty());
}

#[test]
fn stack_insert_replace_remove() {
    let mut stack = StackOfOpenElements::new();
    stack.push(1);
    stack.push(2);
    stack.insert_immediately_below(9, 1);
    assert_eq!(stack.element_immediately_above(9), Some(1));
    assert_eq!(stack.element_immediately_above(2), Some(9));
    stack.replace(9, 8);
    assert!(stack.contains(8));
    assert!(!stack.contains(9));
    stack.remove_element(8);
    assert!(!stack.contains(8));
    assert_eq!(stack.element_immediately_above(2), Some(1));
    assert_eq!(stack.element_immediately_above(1), None);
    assert_eq!(stack.element_immediately_above(5), None);
    stack.clear();
    assert!(stack.is_empty());
}

#[test]
fn stack_pops_until_an_element() {
    let mut stack = StackOfOpenElements::new();
    stack.push(1);
    stack.push(2);
    stack.push(3);
    stack.pop_elements_until_element_has_been_popped(2);
    assert_eq!(stack.current_node(), Some(1));
}

#[test]
fn stack_scopes() {
    let mut arena = Arena::new();
    let document = arena.allocate(Node::new(None, NodeData::Document));
    let html = element(&mut arena, document, "html");
    let body = element(&mut arena, document, "body");
    let p = element(&mut arena, document, "p");
    let button = element(&mut arena, document, "button");
    let span = element(&mut arena, document, "span");
    let table = element(&mut arena, document, "table");

    let mut stack = StackOfOpenElements::new();
    stack.push(html);
    stack.push(body);
    stack.push(p);
    stack.push(span);
    assert!(stack.has_element_with_tag_name_in_scope(&arena, "p"));
    assert!(stack.has_element_with_tag_name_in_button_scope(&arena, "p"));
    assert!(stack.has_element_in_scope(&arena, p));
    assert!(!stack.has_element_with_tag_name_in_scope(&arena, "li"));

    stack.push(button);
    assert!(stack.has_element_with_tag_name_in_scope(&arena, "p"));
    assert!(!stack.has_element_with_tag_name_in_button_scope(&arena, "p"));

    stack.push(table);
    assert!(!stack.has_element_with_tag_name_in_scope(&arena, "p"));
    assert!(!stack.has_element_in_scope(&arena, p));
    assert!(stack.has_element_with_tag_name_in_list_item_scope(&arena, "table"));

    assert!(stack.contains_one_of_tags(&arena, &["span", "em"]));
    assert!(!stack.contains_one_of_tags(&arena, &["em"]));
    assert_eq!(stack.topmost_special_node_below(&arena, body), Some(p));
    assert_eq!(stack.topmost_special_node_below(&arena, p), Some(button));
    assert_eq!(stack.topmost_special_node_below(&arena, table), None);

    stack.pop_elements_until_element_with_tag_name_has_been_popped(&arena, "p");
    assert_eq!(stack.current_node(), Some(body));
}

#[test]
fn generating_implied_end_tags() {
    let mut arena = Arena::new();
    let document = arena.allocate(Node::new(None, NodeData::Document));
    let html = element(&mut arena, document, "html");
    let body = element(&mut arena, document, "body");
    let li = element(&mut arena, document, "li");
    let p = element(&mut arena, document, "p");
    let em = element(&mut arena, document, "em");

    // The p and li elements have implied end tags and are popped.
    let mut stack = StackOfOpenElements::new();
    stack.push(html);
    stack.push(body);
    stack.push(li);
    stack.push(p);
    stack.generate_implied_end_tags_except_for(&arena, None);
    assert_eq!(stack.current_node(), Some(body));

    // The excepted li element stops the generation.
    let mut stack = StackOfOpenElements::new();
    stack.push(html);
    stack.push(body);
    stack.push(li);
    stack.push(p);
    stack.generate_implied_end_tags_except_for(&arena, Some("li"));
    assert_eq!(stack.current_node(), Some(li));

    // An element without an implied end tag stops it at once.
    let mut stack = StackOfOpenElements::new();
    stack.push(html);
    stack.push(p);
    stack.push(em);
    stack.generate_implied_end_tags_except_for(&arena, None);
    assert_eq!(stack.current_node(), Some(em));
}

#[test]
fn list_of_active_formatting_elements() {
    let mut arena = Arena::new();
    let document = arena.allocate(Node::new(None, NodeData::Document));
    let a = element(&mut arena, document, "a");
    let b = element(&mut arena, document, "b");
    let i = element(&mut arena, document, "i");

    let mut list = ListOfActiveFormattingElements::new();
    assert_eq!(list.len(), 0);
    list.push_element(a);
    list.insert_marker_at_end();
    list.push_element(b);
    list.push_element(i);
    assert_eq!(list.len(), 4);
    assert_eq!(list.first_index_of(b), Some(2));
    assert_eq!(list.first_index_of(99), None);
    assert!(list.contains(a));
    assert_eq!(list.last_element_with_tag_name_before_marker(&arena, "b"), Some(b));
    assert_eq!(list.last_element_with_tag_name_before_marker(&arena, "a"), None);

    // Between the last marker and the end lie b and i, not a.
    assert!(list.contains_element_between(&arena, Position::LastMarkerOrElseStart, Position::End, "b"));
    assert!(list.contains_element_between(&arena, Position::End, Position::LastMarkerOrElseStart, "i"));
    assert!(!list.contains_element_between(&arena, Position::End, Position::LastMarkerOrElseStart, "a"));

    list.replace(b, a);
    assert_eq!(list.first_index_of(b), None);
    list.remove(a);
    assert_eq!(list.first_index_of(a), Some(1));
    list.insert(0, i);
    assert_eq!(list.first_index_of(i), Some(0));
    assert_eq!(list.len(), 4);

    let stack = StackOfOpenElements::new();
    let empty = ListOfActiveFormattingElements::new();
    empty.reconstruct_if_any(&stack);
}

#[test]
fn a_list_without_marker_is_searched_from_its_start() {
    let mut arena = Arena::new();
    let document = arena.allocate(Node::new(None, NodeData::Document));
    let a = element(&mut arena, document, "a");
    let mut list = ListOfActiveFormattingElements::new();
    list.push_element(a);
    assert!(list.contains_element_between(&arena, Position::End, Position::LastMarkerOrElseStart, "a"));
}

#[test]
fn parser_whitespace() {
    assert!(is_parser_whitespace(' '));
    assert!(is_parser_whitespace('\r'));
    assert!(is_parser_whitespace('\u{0C}'));
    assert!(!is_parser_whitespace('x'));
}
