use lib::dom::node::{Arena, Node, NodeData};

#[test]
fn are_same_optional() {
    let mut arena = Arena::new();
    let a = arena.allocate(Node::new(None, NodeData::Document));
    let b = arena.allocate(Node::new(None, NodeData::Document));

    assert_eq!(Node::are_same_optional(Some(a), Some(b)), false);
    assert_eq!(Node::are_same_optional(Some(a), None), false);
    assert_eq!(Node::are_same_optional(None, Some(b)), false);
    assert_eq!(Node::are_same_optional(Some(a), Some(a)), true);
    assert_eq!(Node::are_same_optional(None, None), true);
}

#[test]
fn are_same() {
    let mut arena = Arena::new();
    let a = arena.allocate(Node::new(None, NodeData::Document));
    let b = arena.allocate(Node::new(None, NodeData::Document));

    assert_eq!(Node::are_same(a, b), false);
    assert_eq!(Node::are_same(b, a), false);
    assert_eq!(Node::are_same(a, a), true);
}
