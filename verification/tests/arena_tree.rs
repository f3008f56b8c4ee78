use lib::arena_tree::ArenaTree;

fn orbits() -> ArenaTree<String> {
    let mut tree = ArenaTree::new();
    let links = [
        ("COM", "B"),
        ("B", "C"),
        ("C", "D"),
        ("D", "E"),
        ("E", "F"),
        ("B", "G"),
        ("G", "H"),
        ("D", "I"),
        ("E", "J"),
        ("J", "K"),
        ("K", "L"),
        ("K", "YOU"),
        ("I", "SAN"),
    ];
    for (parent, child) in links.iter() {
        let p = tree.node(String::from(*parent));
        let c = tree.node(String::from(*child));
        tree.insert(p, c);
    }
    tree
}

#[test]
fn node_returns_the_existing_position() {
    let mut tree: ArenaTree<String> = ArenaTree::new();
    assert_eq!(tree.size(), 0);
    let a = tree.node(String::from("a"));
    let b = tree.node(String::from("b"));
    let again = tree.node(String::from("a"));
    assert_eq!(a, 0);
    assert_eq!(b, 1);
    assert_eq!(again, 0);
    assert_eq!(tree.size(), 2);
}

#[test]
fn insert_links_parent_and_child() {
    let mut tree: ArenaTree<u32> = ArenaTree::new();
    let p = tree.node(10);
    let c = tree.node(20);
    tree.insert(p, c);
    assert_eq!(tree.get(c).parent(), Some(p));
    assert_eq!(tree.get(p).children(), &[c]);
    assert_eq!(tree.get(p).parent(), None);
    assert_eq!(*tree.get(c).value(), 20);
    tree.set(c, 30);
    assert_eq!(*tree.get(c).value(), 30);
    assert_eq!(tree.get(c).parent(), Some(p));
}

#[test]
fn root_children_and_edges() {
    let tree = orbits();
    assert_eq!(tree.size(), 14);
    assert_eq!(tree.root_children(), vec![0]);
    assert_eq!(tree.edges(), 13);
}

#[test]
fn depth_counts_parent_links() {
    let mut tree = orbits();
    let com = tree.node(String::from("COM"));
    let d = tree.node(String::from("D"));
    let you = tree.node(String::from("YOU"));
    assert_eq!(tree.depth(com), 0);
    assert_eq!(tree.depth(d), 3);
    assert_eq!(tree.depth(you), 7);
}

#[test]
fn depth_to_target_searches_the_subtree() {
    let mut tree = orbits();
    let d = tree.node(String::from("D"));
    let k = tree.node(String::from("K"));
    assert_eq!(tree.depth_to_target(d, &String::from("D")), Some(0));
    assert_eq!(tree.depth_to_target(d, &String::from("SAN")), Some(2));
    assert_eq!(tree.depth_to_target(d, &String::from("YOU")), Some(4));
    assert_eq!(tree.depth_to_target(k, &String::from("SAN")), None);
}

#[test]
fn distance_between_two_nodes() {
    let mut tree = orbits();
    assert_eq!(tree.distance_between(String::from("YOU"), String::from("SAN")), 4);
    assert_eq!(tree.size(), 14);
}

fn named_orbits() -> ArenaTree<String> {
    let mut tree = ArenaTree::new();
    let links = [
        ("COM", "B"),
        ("B", "C"),
        ("C", "D"),
        ("D", "E"),
        ("E", "F"),
        ("B", "G"),
        ("G", "H"),
        ("D", "I"),
        ("E", "J"),
        ("J", "K"),
        ("K", "L"),
        ("K", "YOU"),
        ("I", "SAN"),
    ];
    for (parent, child) in links.iter() {
        let p = tree.node_named(String::from(*parent));
        let c = tree.node_named(String::from(*child));
        tree.insert(p, c);
    }
    tree
}

#[test]
fn node_named_finds_nodes_by_their_characters() {
    let mut tree: ArenaTree<String> = ArenaTree::new();
    let a = tree.node_named(String::from("a"));
    let b = tree.node_named(String::from("b"));
    let again = tree.node_named(String::from("a"));
    assert_eq!((a, b, again), (0, 1, 0));
    assert_eq!(tree.size(), 2);
    assert_eq!(named_orbits().size(), 14);
}

#[test]
fn depth_to_name_searches_the_subtree() {
    let mut tree = named_orbits();
    let d = tree.node_named(String::from("D"));
    let k = tree.node_named(String::from("K"));
    assert_eq!(tree.depth_to_name(d, "D"), Some(0));
    assert_eq!(tree.depth_to_name(d, "SAN"), Some(2));
    assert_eq!(tree.depth_to_name(d, "YOU"), Some(4));
    assert_eq!(tree.depth_to_name(k, "SAN"), None);
}

#[test]
fn distance_between_named_nodes() {
    let mut tree = named_orbits();
    assert_eq!(tree.distance_between_names("YOU", "SAN"), 4);
    assert_eq!(tree.size(), 14);
}
