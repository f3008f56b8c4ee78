use lib::dom::arena::NodeRef;
use lib::dom::node::{Arena, CharacterDataVariant, Node, NodeData};
use lib::dom::{Namespace, QualifiedName};
use lib::render_tree::{DumpSettings, RenderNode, RenderTree};

fn element(arena: &mut Arena, document: NodeRef, tag: &str) -> NodeRef {
    arena.allocate(Node::new(
        Some(document),
        NodeData::Element {
            name: QualifiedName::new(String::from(tag)),
            namespace: Some(Namespace::Html),
            attributes: vec![],
        },
    ))
}

fn text(arena: &mut Arena, document: NodeRef, data: &str) -> NodeRef {
    arena.allocate(Node::new(
        Some(document),
        NodeData::CharacterData { data: String::from(data), variant: CharacterDataVariant::Text },
    ))
}

struct Page {
    arena: Arena,
    document: NodeRef,
    head: NodeRef,
    title: NodeRef,
    body: NodeRef,
    div: NodeRef,
}

fn page() -> Page {
    let mut arena = Arena::new();
    let document = arena.allocate(Node::new(None, NodeData::Document));
    let html = element(&mut arena, document, "html");
    let head = element(&mut arena, document, "head");
    let title = element(&mut arena, document, "title");
    let title_text = text(&mut arena, document, "T");
    let body = element(&mut arena, document, "body");
    let div = element(&mut arena, document, "div");
    let first = text(&mut arena, document, "hi");
    let script = element(&mut arena, document, "script");
    let second = text(&mut arena, document, "hi");
    Node::append(&mut arena, document, html);
    Node::append(&mut arena, html, head);
    Node::append(&mut arena, head, title);
    Node::append(&mut arena, title, title_text);
    Node::append(&mut arena, html, body);
    Node::append(&mut arena, body, div);
    Node::append(&mut arena, div, first);
    Node::append(&mut arena, body, script);
    Node::append(&mut arena, body, second);
    Page { arena, document, head, title, body, div }
}

#[test]
fn renders_elements_and_texts() {
    let p = page();
    let tree = RenderTree::from(&p.arena, p.body).tree;
    assert_eq!(tree.size(), 3);
    assert_eq!(*tree.get(0).value(), RenderNode::Element(p.body));
    assert_eq!(tree.get(0).children(), &[1, 2]);
    assert_eq!(*tree.get(1).value(), RenderNode::Element(p.div));
    assert_eq!(tree.get(1).parent(), Some(0));
    assert_eq!(tree.get(1).children(), &[2]);
    // Equal texts share one render node, which keeps the last parent.
    assert_eq!(*tree.get(2).value(), RenderNode::Text(String::from("hi")));
    assert_eq!(tree.get(2).parent(), Some(0));
}

#[test]
fn a_node_that_is_not_rendered_gives_its_last_rendered_child() {
    let p = page();
    let mut render_tree = RenderTree::from(&p.arena, p.div);
    assert_eq!(render_tree.tree.size(), 2);

    let at = RenderNode::from(&mut render_tree, &p.arena, p.head);
    assert_eq!(*render_tree.tree.get(at).value(), RenderNode::Element(p.title));
    assert_eq!(render_tree.tree.size(), 5);
    assert_eq!(*render_tree.tree.get(2).value(), RenderNode::Element(p.head));
    assert_eq!(render_tree.tree.get(at).children(), &[4]);
    assert_eq!(*render_tree.tree.get(4).value(), RenderNode::Text(String::from("T")));
}

#[test]
fn the_document_itself_renders_nothing_below_html() {
    let p = page();
    let tree = RenderTree::from(&p.arena, p.document).tree;
    assert_eq!(tree.size(), 1);
    assert_eq!(*tree.get(0).value(), RenderNode::Element(p.document));
    assert!(tree.get(0).children().is_empty());
}

#[test]
fn default_dump_settings() {
    let settings = DumpSettings::default();
    assert_eq!(settings.closing_marker, None);
    assert!(settings.color);
    assert!(settings.trim_text);
    assert_eq!(settings.indentation, "  ");
}

#[test]
fn dumps_the_render_tree() {
    let mut arena = Arena::new();
    let document = arena.allocate(Node::new(None, NodeData::Document));
    let body = element(&mut arena, document, "body");
    let div = element(&mut arena, document, "div");
    let words = text(&mut arena, document, "  hi ");
    Node::append(&mut arena, document, body);
    Node::append(&mut arena, body, div);
    Node::append(&mut arena, div, words);
    let tree = RenderTree::from(&arena, body);
    let plain = DumpSettings { closing_marker: None, color: false, trim_text: true, indentation: "  " };
    assert_eq!(tree.dump_lines(&arena, plain), vec!["BODY", "  DIV", "    #text \"hi\""]);
    let marked = DumpSettings { closing_marker: Some("/"), color: false, trim_text: false, indentation: "  " };
    assert_eq!(
        tree.dump_lines(&arena, marked),
        vec!["BODY", "  DIV", "    #text \"  hi \"", "    /", "  /", "/"]
    );
    let colored = DumpSettings::default();
    assert_eq!(tree.dump_lines(&arena, colored)[0], "\x1b[33mBODY\x1b[0m");
}
