//! The render tree: the parts of a document that are rendered, as an arena
//! tree of elements and texts.
use vstd::prelude::*;
use crate::arena_tree::{find_value, link, ArenaTree, NodeModel};
use crate::dom::arena::NodeRef;
use crate::dom::node::{bounded_in, node_name_spec, Arena, CharacterDataVariant, Node, NodeData};
use crate::text::{concat, owned, str_eq, trim, trim_spec};

verus! {

/// A node of the render tree: a text, or a DOM element (any DOM node, by
/// its position in the DOM arena).
#[derive(Debug, Clone, Eq)]
pub enum RenderNode {
    Text(String),
    Element(NodeRef),
}

/// A render node with its text taken as characters.
pub enum RenderValue {
    Text(Seq<char>),
    Element(NodeRef),
}

/// The value a render node stands for.
pub open spec fn render_value(n: RenderNode) -> RenderValue {
    match n {
        RenderNode::Text(s) => RenderValue::Text(s@),
        RenderNode::Element(e) => RenderValue::Element(e),
    }
}

/// Texts are equal when they hold the same characters, elements when they
/// are the same DOM node.
pub open spec fn same_render_node(a: RenderNode, b: RenderNode) -> bool {
    render_value(a) == render_value(b)
}

impl PartialEq for RenderNode {
    fn eq(&self, other: &Self) -> (res: bool) {
        match (self, other) {
            (RenderNode::Text(a), RenderNode::Text(b)) => str_eq(a.as_str(), b.as_str()),
            (RenderNode::Element(a), RenderNode::Element(b)) => *a == *b,
            _ => false,
        }
    }
}

impl vstd::std_specs::cmp::PartialEqSpecImpl for RenderNode {
    open spec fn obeys_eq_spec() -> bool {
        true
    }

    open spec fn eq_spec(&self, other: &Self) -> bool {
        same_render_node(*self, *other)
    }
}

/// The nodes of a render tree with their values taken as render values.
pub open spec fn value_model(m: Seq<NodeModel<RenderNode>>) -> Seq<NodeModel<RenderValue>> {
    m.map_values(
        |n: NodeModel<RenderNode>|
            NodeModel { value: render_value(n.value), parent: n.parent, children: n.children },
    )
}

/// The first node at or after `j` holding `v`.
pub open spec fn find_render_value(m: Seq<NodeModel<RenderValue>>, v: RenderValue, j: int) -> Option<int>
    decreases m.len() - j,
{
    if j < 0 || j >= m.len() {
        None
    } else if m[j].value == v {
        Some(j)
    } else {
        find_render_value(m, v, j + 1)
    }
}

/// Adding `v` to the render tree `m`: the first node holding it, or a new
/// parentless leaf at the end.
pub open spec fn add_render_value(m: Seq<NodeModel<RenderValue>>, v: RenderValue) -> (
    Seq<NodeModel<RenderValue>>,
    int,
) {
    match find_render_value(m, v, 0) {
        Some(i) => (m, i),
        None => (m.push(NodeModel { value: v, parent: None, children: Seq::empty() }), m.len() as int),
    }
}

/// A DOM node is rendered when it is a text, or an element other than
/// `head`, `html`, `script`, `meta`, `link` and `style`.
pub open spec fn renders(d: NodeData) -> bool {
    match d {
        NodeData::Element { name, .. } => {
            &&& name.local@ != "head"@
            &&& name.local@ != "html"@
            &&& name.local@ != "script"@
            &&& name.local@ != "meta"@
            &&& name.local@ != "link"@
            &&& name.local@ != "style"@
        },
        NodeData::CharacterData { variant: CharacterDataVariant::Text, .. } => true,
        _ => false,
    }
}

/// Rendering DOM node `n` of `ns` into the render tree `m`: a node for `n`
/// is added; when `n` is rendered, its rendered element children are
/// rendered in turn and its rendered text children added, each then linked
/// below it, and the result is `n`'s node; otherwise its rendered children
/// are rendered and the result is the last of theirs (or `n`'s node when
/// there is none). `h` bounds the depth.
pub open spec fn render(ns: Seq<Node>, m: Seq<NodeModel<RenderValue>>, n: int, h: nat) -> (
    Seq<NodeModel<RenderValue>>,
    int,
)
    decreases h, 2int, 0int,
{
    let (m1, t) = add_render_value(m, RenderValue::Element(n as usize));
    let cs = ns[n].child_list();
    if renders(ns[n].node_data()) {
        (render_children(ns, m1, t, cs, 0, h), t)
    } else {
        render_last(ns, m1, t, cs, 0, h)
    }
}

/// Rendering the children `cs[j..]` of a rendered node whose render node
/// is `t`.
pub open spec fn render_children(
    ns: Seq<Node>,
    m: Seq<NodeModel<RenderValue>>,
    t: int,
    cs: Seq<NodeRef>,
    j: int,
    h: nat,
) -> Seq<NodeModel<RenderValue>>
    decreases h, 1int, cs.len() - j,
{
    if j < 0 || j >= cs.len() || h == 0 {
        m
    } else {
        let c = cs[j] as int;
        let d = ns[c].node_data();
        if renders(d) && d is Element {
            let (m2, k) = render(ns, m, c, (h - 1) as nat);
            render_children(ns, link(m2, t, k), t, cs, j + 1, h)
        } else if renders(d) && d is CharacterData {
            let (m2, k) = add_render_value(m, RenderValue::Text(d->CharacterData_data@));
            render_children(ns, link(m2, t, k), t, cs, j + 1, h)
        } else {
            render_children(ns, m, t, cs, j + 1, h)
        }
    }
}

/// Rendering the children `cs[j..]` of a node that is not rendered; `cur`
/// is the render node reached so far.
pub open spec fn render_last(
    ns: Seq<Node>,
    m: Seq<NodeModel<RenderValue>>,
    cur: int,
    cs: Seq<NodeRef>,
    j: int,
    h: nat,
) -> (Seq<NodeModel<RenderValue>>, int)
    decreases h, 1int, cs.len() - j,
{
    if j < 0 || j >= cs.len() || h == 0 {
        (m, cur)
    } else {
        let c = cs[j] as int;
        if renders(ns[c].node_data()) {
            let (m2, k) = render(ns, m, c, (h - 1) as nat);
            render_last(ns, m2, k, cs, j + 1, h)
        } else {
            render_last(ns, m, cur, cs, j + 1, h)
        }
    }
}

/// How a tree is dumped as text.
#[derive(Debug, Clone, Copy, PartialEq, Eq, Hash)]
pub struct DumpSettings {
    pub closing_marker: Option<&'static str>,
    pub color: bool,
    pub trim_text: bool,
    pub indentation: &'static str,
}

impl Default for DumpSettings {
    /// No closing marker, colors on, text trimmed, two spaces of
    /// indentation.
    fn default() -> (res: Self)
        ensures
            res.closing_marker is None,
            res.color,
            res.trim_text,
            res.indentation@ == "  "@,
    {
        Self { closing_marker: None, color: true, trim_text: true, indentation: "  " }
    }
}

/// A render tree.
pub struct RenderTree {
    pub tree: ArenaTree<RenderNode>,
}

/// Whether a DOM node is rendered.
pub(crate) fn node_is_valid(node: &Node) -> (res: bool)
    ensures
        res == renders(node.node_data()),
{
    match node.data() {
        NodeData::Element { name, .. } => {
            let tag = name.local.as_str();
            !str_eq(tag, "head") && !str_eq(tag, "html") && !str_eq(tag, "script") && !str_eq(
                tag,
                "meta",
            ) && !str_eq(tag, "link") && !str_eq(tag, "style")
        },
        NodeData::CharacterData { variant: CharacterDataVariant::Text, .. } => true,
        _ => false,
    }
}

proof fn lemma_find_render_value(m: Seq<NodeModel<RenderNode>>, v: RenderNode, j: int)
    requires
        0 <= j <= m.len(),
    ensures
        find_value(m, v, j) == find_render_value(value_model(m), render_value(v), j),
    decreases m.len() - j,
{
    if j < m.len() {
        lemma_find_render_value(m, v, j + 1);
    }
}

/// Adding a render node to a tree adds its value to the tree's values.
proof fn lemma_add_render_value(m: Seq<NodeModel<RenderNode>>, v: RenderNode)
    ensures
        find_value(m, v, 0) is None ==> value_model(
            m.push(NodeModel { value: v, parent: None, children: Seq::empty() }),
        ) == value_model(m).push(
            NodeModel { value: render_value(v), parent: None, children: Seq::empty() },
        ),
        find_value(m, v, 0) == find_render_value(value_model(m), render_value(v), 0),
{
    lemma_find_render_value(m, v, 0);
    assert(value_model(m.push(NodeModel { value: v, parent: None, children: Seq::empty() }))
        =~= value_model(m).push(
        NodeModel { value: render_value(v), parent: None, children: Seq::empty() },
    ));
}

/// Linking commutes with taking values.
proof fn lemma_link_values(m: Seq<NodeModel<RenderNode>>, p: int, c: int)
    requires
        0 <= p < m.len(),
        0 <= c < m.len(),
    ensures
        value_model(link(m, p, c)) == link(value_model(m), p, c),
{
    assert(value_model(link(m, p, c)) =~= link(value_model(m), p, c));
}

impl RenderTree {
    /// The render tree of the subtree of `node`.
    pub fn from(arena: &Arena, node: NodeRef) -> (res: Self)
        requires
            arena.wf(),
            bounded_in(arena.nodes(), node as int, arena.nodes().len()),
        ensures
            res.tree.wf(),
            value_model(res.tree.model()) == render(
                arena.nodes(),
                Seq::empty(),
                node as int,
                arena.nodes().len(),
            ).0,
    {
        let mut render_tree = RenderTree { tree: ArenaTree::new() };
        proof {
            assert(value_model(render_tree.tree.model()) =~= Seq::empty());
        }
        RenderNode::from(&mut render_tree, arena, node);
        render_tree
    }
}

impl RenderNode {
    /// Renders `node` into `render_tree`, and gives the position of the
    /// render node reached (see [`render`]).
    pub fn from(render_tree: &mut RenderTree, arena: &Arena, node: NodeRef) -> (res: usize)
        requires
            old(render_tree).tree.wf(),
            arena.wf(),
            bounded_in(arena.nodes(), node as int, arena.nodes().len()),
        ensures
            final(render_tree).tree.wf(),
            (value_model(final(render_tree).tree.model()), res as int) == render(
                arena.nodes(),
                value_model(old(render_tree).tree.model()),
                node as int,
                arena.nodes().len(),
            ),
            res < final(render_tree).tree.nodes().len(),
    {
        RenderNode::from_bounded(render_tree, arena, node, Ghost(arena.nodes().len()))
    }

    fn add(render_tree: &mut RenderTree, value: RenderNode) -> (res: usize)
        requires
            old(render_tree).tree.wf(),
        ensures
            final(render_tree).tree.wf(),
            (value_model(final(render_tree).tree.model()), res as int) == add_render_value(
                value_model(old(render_tree).tree.model()),
                render_value(value),
            ),
            res < final(render_tree).tree.nodes().len(),
            final(render_tree).tree.nodes().len() >= old(render_tree).tree.nodes().len(),
    {
        let ghost v = value;
        let res = render_tree.tree.node(value);
        proof {
            lemma_add_render_value(old(render_tree).tree.model(), v);
        }
        res
    }

    fn attach(render_tree: &mut RenderTree, parent: usize, child: usize)
        requires
            old(render_tree).tree.wf(),
            parent < old(render_tree).tree.nodes().len(),
            child < old(render_tree).tree.nodes().len(),
        ensures
            final(render_tree).tree.wf(),
            value_model(final(render_tree).tree.model()) == link(
                value_model(old(render_tree).tree.model()),
                parent as int,
                child as int,
            ),
            final(render_tree).tree.nodes().len() == old(render_tree).tree.nodes().len(),
    {
        render_tree.tree.insert(parent, child);
        proof {
            lemma_link_values(old(render_tree).tree.model(), parent as int, child as int);
        }
    }

    fn from_bounded(render_tree: &mut RenderTree, arena: &Arena, node: NodeRef, Ghost(h): Ghost<nat>) -> (res: usize)
        requires
            old(render_tree).tree.wf(),
            arena.wf(),
            bounded_in(arena.nodes(), node as int, h),
        ensures
            final(render_tree).tree.wf(),
            (value_model(final(render_tree).tree.model()), res as int) == render(
                arena.nodes(),
                value_model(old(render_tree).tree.model()),
                node as int,
                h,
            ),
            res < final(render_tree).tree.nodes().len(),
            final(render_tree).tree.nodes().len() >= old(render_tree).tree.nodes().len(),
        decreases h,
    {
        let ghost ns = arena.nodes();
        let ghost m0 = value_model(render_tree.tree.model());
        let mut tree_node = RenderNode::add(render_tree, RenderNode::Element(node));
        let ghost m1 = value_model(render_tree.tree.model());
        let ghost t0 = tree_node;
        let children = arena.get(node).children();
        let ghost cs = ns[node as int].child_list();
        let n = children.len();
        if node_is_valid(arena.get(node)) {
            let mut i: usize = 0;
            while i < n
                invariant
                    0 <= i <= n,
                    n == cs.len(),
                    children@ == cs,
                    cs == ns[node as int].child_list(),
                    ns == arena.nodes(),
                    arena.wf(),
                    bounded_in(ns, node as int, h),
                    render_tree.tree.wf(),
                    tree_node < render_tree.tree.nodes().len(),
                    render_tree.tree.nodes().len() >= old(render_tree).tree.nodes().len(),
                    render_children(ns, value_model(render_tree.tree.model()), tree_node as int, cs, i as int, h)
                        == render_children(ns, m1, tree_node as int, cs, 0, h),
                decreases n - i,
            {
                let child = children[i];
                proof {
                    assert(h > 0);
                    assert(bounded_in(ns, cs[i as int] as int, (h - 1) as nat));
                }
                let c = arena.get(child);
                if node_is_valid(c) {
                    match c.data() {
                        NodeData::Element { .. } => {
                            let new_node = RenderNode::from_bounded(render_tree, arena, child, Ghost((h - 1) as nat));
                            RenderNode::attach(render_tree, tree_node, new_node);
                        },
                        NodeData::CharacterData { data, .. } => {
                            let new_node = RenderNode::add(render_tree, RenderNode::Text(owned(data.as_str())));
                            RenderNode::attach(render_tree, tree_node, new_node);
                        },
                        _ => {},
                    }
                }
                i += 1;
            }
            proof {
                if h == 0 {
                    assert(n == 0);
                }
            }
        } else {
            let mut i: usize = 0;
            while i < n
                invariant
                    0 <= i <= n,
                    n == cs.len(),
                    children@ == cs,
                    cs == ns[node as int].child_list(),
                    ns == arena.nodes(),
                    arena.wf(),
                    bounded_in(ns, node as int, h),
                    render_tree.tree.wf(),
                    tree_node < render_tree.tree.nodes().len(),
                    render_tree.tree.nodes().len() >= old(render_tree).tree.nodes().len(),
                    render_last(ns, value_model(render_tree.tree.model()), tree_node as int, cs, i as int, h)
                        == render_last(ns, m1, t0 as int, cs, 0, h),
                decreases n - i,
            {
                let child = children[i];
                proof {
                    assert(h > 0);
                    assert(bounded_in(ns, cs[i as int] as int, (h - 1) as nat));
                }
                if node_is_valid(arena.get(child)) {
                    tree_node = RenderNode::from_bounded(render_tree, arena, child, Ghost((h - 1) as nat));
                }
                i += 1;
            }
        }
        tree_node
    }
}

} // verus!

verus! {

/// The escape sequence `code` where the settings ask for colors, else
/// nothing.
pub open spec fn color_of(settings: DumpSettings, code: Seq<char>) -> Seq<char> {
    if settings.color {
        code
    } else {
        Seq::empty()
    }
}

/// The line that a render node with value `v` gets in a dump, if any: a
/// text shows its data (trimmed where the settings ask for it), an element
/// its node name; a render node for a DOM node that is no element gets no
/// line.
pub open spec fn dump_label(ns: Seq<Node>, v: RenderNode, settings: DumpSettings) -> Option<Seq<char>> {
    let yellow = color_of(settings, "\x1b[33m"@);
    let white = color_of(settings, "\x1b[37m"@);
    let reset = color_of(settings, "\x1b[0m"@);
    let gray = color_of(settings, "\x1b[90m"@);
    match v {
        RenderNode::Text(data) => Some(
            gray + "#text \""@ + white + (if settings.trim_text {
                trim_spec(data@)
            } else {
                data@
            }) + gray + "\""@ + reset,
        ),
        RenderNode::Element(e) => if e < ns.len() && ns[e as int].node_data() is Element {
            Some(yellow + node_name_spec(ns[e as int].node_data()) + reset)
        } else {
            None
        },
    }
}

/// The lines that dump the render node `i` of `m` and its subtree at
/// indentation `indent`: its line, its children two spaces deeper, then the
/// closing marker where the settings have one. A node without a line has
/// no closing marker either; its children are dumped all the same.
pub open spec fn render_dump(
    m: Seq<NodeModel<RenderNode>>,
    ns: Seq<Node>,
    i: int,
    indent: Seq<char>,
    settings: DumpSettings,
    h: nat,
) -> Seq<Seq<char>>
    decreases h, 0int, 0int,
{
    let body = if h == 0 {
        Seq::empty()
    } else {
        render_dump_children(m, ns, m[i].children, 0, indent + "  "@, settings, (h - 1) as nat)
    };
    match dump_label(ns, m[i].value, settings) {
        Some(l) => seq![indent + l] + body + match settings.closing_marker {
            Some(c) => seq![indent + c@],
            None => Seq::empty(),
        },
        None => body,
    }
}

/// The dumps of the children `cs[j..]`, in order.
pub open spec fn render_dump_children(
    m: Seq<NodeModel<RenderNode>>,
    ns: Seq<Node>,
    cs: Seq<usize>,
    j: int,
    indent: Seq<char>,
    settings: DumpSettings,
    h: nat,
) -> Seq<Seq<char>>
    decreases h, 1int, cs.len() - j,
{
    if j < 0 || j >= cs.len() {
        Seq::empty()
    } else {
        render_dump(m, ns, cs[j] as int, indent, settings, h) + render_dump_children(
            m,
            ns,
            cs,
            j + 1,
            indent,
            settings,
            h,
        )
    }
}

/// `code` where the settings ask for colors, else the empty string.
fn color(settings: DumpSettings, code: &'static str) -> (res: &'static str)
    ensures
        res@ == color_of(settings, code@),
{
    proof {
        reveal_strlit("");
    }
    if settings.color {
        code
    } else {
        ""
    }
}

/// The line of a render node, as `dump_label` gives it.
fn label(arena: &Arena, value: &RenderNode, settings: DumpSettings) -> (res: Option<String>)
    ensures
        opt_chars(res) == dump_label(arena.nodes(), *value, settings),
{
    let yellow = color(settings, "\x1b[33m");
    let white = color(settings, "\x1b[37m");
    let reset = color(settings, "\x1b[0m");
    let gray = color(settings, "\x1b[90m");
    match value {
        RenderNode::Text(data) => {
            let shown = if settings.trim_text {
                trim(data.as_str())
            } else {
                owned(data.as_str())
            };
            let a = concat(gray, "#text \"");
            let b = concat(a.as_str(), white);
            let c = concat(b.as_str(), shown.as_str());
            let d = concat(c.as_str(), gray);
            let e = concat(d.as_str(), "\"");
            let f = concat(e.as_str(), reset);
            Some(f)
        },
        RenderNode::Element(e) => {
            if *e < arena.len() && arena.get(*e).is_element() {
                let name = arena.get(*e).node_name();
                let a = concat(yellow, name.as_str());
                Some(concat(a.as_str(), reset))
            } else {
                None
            }
        },
    }
}

/// The characters of an optional string.
pub open spec fn opt_chars(s: Option<String>) -> Option<Seq<char>> {
    match s {
        Some(x) => Some(x@),
        None => None,
    }
}

impl RenderTree {
    /// The lines of a dump of the tree, from its first node (the root that
    /// `RenderTree::from` makes); no lines for an empty tree.
    pub fn dump_lines(&self, arena: &Arena, settings: DumpSettings) -> (res: Vec<String>)
        requires
            self.tree.wf(),
            self.tree.model().len() > 0 ==> self.tree.bounded(0, self.tree.model().len() as nat),
        ensures
            res@.map_values(|l: String| l@) == if self.tree.model().len() == 0 {
                Seq::<Seq<char>>::empty()
            } else {
                render_dump(self.tree.model(), arena.nodes(), 0, Seq::empty(), settings, self.tree.model().len() as nat)
            },
    {
        let mut lines: Vec<String> = Vec::new();
        if self.tree.size() == 0 {
            assert(lines@.map_values(|l: String| l@) =~= Seq::<Seq<char>>::empty());
            return lines;
        }
        let indent = String::new();
        self.dump_node(arena, 0, &indent, settings, &mut lines, Ghost(self.tree.model().len() as nat));
        assert(lines@.map_values(|l: String| l@) =~= Seq::<Seq<char>>::empty() + render_dump(
            self.tree.model(),
            arena.nodes(),
            0,
            Seq::empty(),
            settings,
            self.tree.model().len() as nat,
        ));
        lines
    }

    fn dump_node(
        &self,
        arena: &Arena,
        i: usize,
        indent: &String,
        settings: DumpSettings,
        lines: &mut Vec<String>,
        Ghost(h): Ghost<nat>,
    )
        requires
            self.tree.wf(),
            self.tree.bounded(i as int, h),
        ensures
            final(lines)@.map_values(|l: String| l@) == old(lines)@.map_values(|l: String| l@) + render_dump(
                self.tree.model(),
                arena.nodes(),
                i as int,
                indent@,
                settings,
                h,
            ),
        decreases h,
    {
        let ghost m = self.tree.model();
        let ghost ns = arena.nodes();
        let ghost start = lines@.map_values(|l: String| l@);
        let node = self.tree.get(i);
        let line = label(arena, node.value(), settings);
        proof {
            assert(m[i as int] == crate::arena_tree::model_of(self.tree.nodes()[i as int]));
        }
        match &line {
            Some(l) => {
                lines.push(concat(indent.as_str(), l.as_str()));
            },
            None => {},
        }
        let ghost after_head = lines@.map_values(|l: String| l@);
        let deeper = concat(indent.as_str(), "  ");
        let children = node.children();
        let n = children.len();
        let ghost cs = m[i as int].children;
        if n > 0 {
            let mut j: usize = 0;
            while j < n
                invariant
                    0 <= j <= n,
                    h > 0,
                    self.tree.wf(),
                    m == self.tree.model(),
                    ns == arena.nodes(),
                    n == cs.len(),
                    children@ == cs,
                    cs == self.tree.nodes()[i as int].child_list(),
                    self.tree.bounded(i as int, h),
                    deeper@ == indent@ + "  "@,
                    lines@.map_values(|l: String| l@) + render_dump_children(m, ns, cs, j as int, deeper@, settings, (h - 1) as nat)
                        == after_head + render_dump_children(m, ns, cs, 0, deeper@, settings, (h - 1) as nat),
                decreases n - j,
            {
                let c = children[j];
                let ghost before_lines = lines@.map_values(|l: String| l@);
                proof {
                    assert(self.tree.bounded(cs[j as int] as int, (h - 1) as nat));
                }
                self.dump_node(arena, c, &deeper, settings, lines, Ghost((h - 1) as nat));
                proof {
                    assert(render_dump_children(m, ns, cs, j as int, deeper@, settings, (h - 1) as nat) == render_dump(
                        m,
                        ns,
                        c as int,
                        deeper@,
                        settings,
                        (h - 1) as nat,
                    ) + render_dump_children(m, ns, cs, j + 1, deeper@, settings, (h - 1) as nat));
                    assert(lines@.map_values(|l: String| l@) + render_dump_children(m, ns, cs, j + 1, deeper@, settings, (h - 1) as nat)
                        =~= before_lines + render_dump_children(m, ns, cs, j as int, deeper@, settings, (h - 1) as nat));
                }
                j += 1;
            }
        }
        let ghost after_body = lines@.map_values(|l: String| l@);
        if line.is_some() {
            match settings.closing_marker {
                Some(marker) => {
                    lines.push(concat(indent.as_str(), marker));
                },
                None => {},
            }
        }
        proof {
            let body = if h == 0 {
                Seq::<Seq<char>>::empty()
            } else {
                render_dump_children(m, ns, cs, 0, indent@ + "  "@, settings, (h - 1) as nat)
            };
            if n == 0 && h > 0 {
                assert(body =~= Seq::<Seq<char>>::empty());
            }
            if h == 0 {
                assert(n == 0);
            }
            assert(after_body =~= after_head + body);
            assert(dump_label(ns, m[i as int].value, settings) == opt_chars(line));
            match line {
                Some(l) => {
                    assert(after_head =~= start + seq![indent@ + l@]);
                    let tail = match settings.closing_marker {
                        Some(c) => seq![indent@ + c@],
                        None => Seq::<Seq<char>>::empty(),
                    };
                    assert(lines@.map_values(|l: String| l@) =~= after_body + tail);
                    assert(render_dump(m, ns, i as int, indent@, settings, h) == seq![indent@ + l@] + body + tail);
                },
                None => {
                    assert(after_head =~= start);
                    assert(render_dump(m, ns, i as int, indent@, settings, h) == body);
                },
            }
            assert(lines@.map_values(|l: String| l@) =~= start + render_dump(m, ns, i as int, indent@, settings, h));
        }
    }
}

} // verus!

verus! {

/// A DOM element that is never rendered: one named head, html, script,
/// meta, link or style.
pub open spec fn skipped_element(d: NodeData) -> bool {
    d matches NodeData::Element { name, .. } && (name.local@ == "head"@ || name.local@ == "html"@
        || name.local@ == "script"@ || name.local@ == "meta"@ || name.local@ == "link"@ || name.local@
        == "style"@)
}

/// `m2` keeps the values of the nodes of `m`, and each node it adds that
/// stands for a DOM element stands for `root` or for an element that is
/// not skipped.
pub open spec fn adds_only_rendered(
    ns: Seq<Node>,
    m: Seq<NodeModel<RenderValue>>,
    m2: Seq<NodeModel<RenderValue>>,
    root: int,
) -> bool {
    &&& m.len() <= m2.len()
    &&& forall|i: int| 0 <= i < m.len() ==> #[trigger] m2[i].value == m[i].value
    &&& forall|i: int|
        m.len() <= i < m2.len() ==> (#[trigger] m2[i].value matches RenderValue::Element(r) ==> r == root
            || !skipped_element(ns[r as int].node_data()))
}

/// A rendered DOM node is no skipped element.
proof fn lemma_rendered_is_not_skipped(d: NodeData)
    requires
        renders(d),
    ensures
        !skipped_element(d),
{
}

proof fn lemma_adds_trans(
    ns: Seq<Node>,
    a: Seq<NodeModel<RenderValue>>,
    b: Seq<NodeModel<RenderValue>>,
    c: Seq<NodeModel<RenderValue>>,
    root: int,
)
    requires
        adds_only_rendered(ns, a, b, root),
        adds_only_rendered(ns, b, c, root),
    ensures
        adds_only_rendered(ns, a, c, root),
{
    assert forall|i: int| a.len() <= i < c.len() implies (#[trigger] c[i].value matches RenderValue::Element(r)
        ==> r == root || !skipped_element(ns[r as int].node_data())) by {
        if i < b.len() {
            assert(c[i].value == b[i].value);
        }
    }
}

proof fn lemma_adds_any_root(
    ns: Seq<Node>,
    a: Seq<NodeModel<RenderValue>>,
    b: Seq<NodeModel<RenderValue>>,
    from: int,
    root: int,
)
    requires
        adds_only_rendered(ns, a, b, from),
        from == -1 || (0 <= from && !skipped_element(ns[from].node_data())),
    ensures
        adds_only_rendered(ns, a, b, root),
{
    assert forall|i: int| a.len() <= i < b.len() implies (#[trigger] b[i].value matches RenderValue::Element(r)
        ==> r == root || !skipped_element(ns[r as int].node_data())) by {
        if let RenderValue::Element(r) = b[i].value {
            if r as int == from {
                assert(!skipped_element(ns[r as int].node_data()));
            }
        }
    }
}

proof fn lemma_find_render_value_range(m: Seq<NodeModel<RenderValue>>, v: RenderValue, j: int)
    requires
        0 <= j,
    ensures
        find_render_value(m, v, j) matches Some(i) ==> j <= i < m.len(),
    decreases m.len() - j,
{
    if j < m.len() && m[j].value != v {
        lemma_find_render_value_range(m, v, j + 1);
    }
}

proof fn lemma_add_value_adds(ns: Seq<Node>, m: Seq<NodeModel<RenderValue>>, v: RenderValue, root: int)
    requires
        v matches RenderValue::Element(r) ==> r == root || !skipped_element(ns[r as int].node_data()),
    ensures
        adds_only_rendered(ns, m, add_render_value(m, v).0, root),
        0 <= add_render_value(m, v).1 < add_render_value(m, v).0.len(),
{
    lemma_find_render_value_range(m, v, 0);
}

proof fn lemma_link_adds(ns: Seq<Node>, m: Seq<NodeModel<RenderValue>>, p: int, c: int)
    requires
        0 <= p < m.len(),
        0 <= c < m.len(),
    ensures
        adds_only_rendered(ns, m, crate::arena_tree::link(m, p, c), -1),
        crate::arena_tree::link(m, p, c).len() == m.len(),
{
}

proof fn lemma_render_adds(ns: Seq<Node>, m: Seq<NodeModel<RenderValue>>, n: int, h: nat)
    requires
        0 <= n <= usize::MAX,
    ensures
        adds_only_rendered(ns, m, render(ns, m, n, h).0, n),
        0 <= render(ns, m, n, h).1 < render(ns, m, n, h).0.len(),
    decreases h, 2int, 0int,
{
    let (m1, t) = add_render_value(m, RenderValue::Element(n as usize));
    lemma_add_value_adds(ns, m, RenderValue::Element(n as usize), n);
    let cs = ns[n].child_list();
    if renders(ns[n].node_data()) {
        lemma_render_children_adds(ns, m1, t, cs, 0, h);
        let r = render_children(ns, m1, t, cs, 0, h);
        lemma_adds_any_root(ns, m1, r, -1, n);
        lemma_adds_trans(ns, m, m1, r, n);
    } else {
        lemma_render_last_adds(ns, m1, t, cs, 0, h);
        let r = render_last(ns, m1, t, cs, 0, h).0;
        lemma_adds_any_root(ns, m1, r, -1, n);
        lemma_adds_trans(ns, m, m1, r, n);
    }
}

proof fn lemma_render_children_adds(
    ns: Seq<Node>,
    m: Seq<NodeModel<RenderValue>>,
    t: int,
    cs: Seq<NodeRef>,
    j: int,
    h: nat,
)
    requires
        0 <= t < m.len(),
    ensures
        adds_only_rendered(ns, m, render_children(ns, m, t, cs, j, h), -1),
    decreases h, 1int, cs.len() - j,
{
    if j < 0 || j >= cs.len() || h == 0 {
    } else {
        let c = cs[j] as int;
        let d = ns[c].node_data();
        if renders(d) && d is Element {
            let (m2, k) = render(ns, m, c, (h - 1) as nat);
            lemma_render_adds(ns, m, c, (h - 1) as nat);
            lemma_rendered_is_not_skipped(d);
            lemma_adds_any_root(ns, m, m2, c, -1);
            let m3 = crate::arena_tree::link(m2, t, k);
            lemma_link_adds(ns, m2, t, k);
            lemma_adds_trans(ns, m, m2, m3, -1);
            lemma_render_children_adds(ns, m3, t, cs, j + 1, h);
            lemma_adds_trans(ns, m, m3, render_children(ns, m3, t, cs, j + 1, h), -1);
        } else if renders(d) && d is CharacterData {
            let v = RenderValue::Text(d->CharacterData_data@);
            let (m2, k) = add_render_value(m, v);
            lemma_add_value_adds(ns, m, v, -1);
            let m3 = crate::arena_tree::link(m2, t, k);
            lemma_link_adds(ns, m2, t, k);
            lemma_adds_trans(ns, m, m2, m3, -1);
            lemma_render_children_adds(ns, m3, t, cs, j + 1, h);
            lemma_adds_trans(ns, m, m3, render_children(ns, m3, t, cs, j + 1, h), -1);
        } else {
            lemma_render_children_adds(ns, m, t, cs, j + 1, h);
        }
    }
}

proof fn lemma_render_last_adds(
    ns: Seq<Node>,
    m: Seq<NodeModel<RenderValue>>,
    cur: int,
    cs: Seq<NodeRef>,
    j: int,
    h: nat,
)
    requires
        0 <= cur < m.len(),
    ensures
        adds_only_rendered(ns, m, render_last(ns, m, cur, cs, j, h).0, -1),
        0 <= render_last(ns, m, cur, cs, j, h).1 < render_last(ns, m, cur, cs, j, h).0.len(),
    decreases h, 1int, cs.len() - j,
{
    if j < 0 || j >= cs.len() || h == 0 {
    } else {
        let c = cs[j] as int;
        if renders(ns[c].node_data()) {
            let (m2, k) = render(ns, m, c, (h - 1) as nat);
            lemma_render_adds(ns, m, c, (h - 1) as nat);
            lemma_rendered_is_not_skipped(ns[c].node_data());
            lemma_adds_any_root(ns, m, m2, c, -1);
            lemma_render_last_adds(ns, m2, k, cs, j + 1, h);
            lemma_adds_trans(ns, m, m2, render_last(ns, m2, k, cs, j + 1, h).0, -1);
        } else {
            lemma_render_last_adds(ns, m, cur, cs, j + 1, h);
        }
    }
}

/// No render node is made for a DOM element named head, html, script,
/// meta, link or style below the root: every render node of the subtree of
/// `n` that stands for a DOM element stands for `n` itself or for an
/// element that is none of these (the render tree that `RenderTree::from`
/// builds is this one).
pub proof fn lemma_skipped_elements_are_not_rendered(ns: Seq<Node>, n: int, h: nat)
    requires
        0 <= n <= usize::MAX,
    ensures
        forall|i: int|
            0 <= i < render(ns, Seq::empty(), n, h).0.len() ==> (#[trigger] render(ns, Seq::empty(), n, h).0[i].value
                matches RenderValue::Element(r) ==> r == n || !skipped_element(ns[r as int].node_data())),
{
    lemma_render_adds(ns, Seq::empty(), n, h);
}

} // verus!
