//! The data structures of HTML tree construction: the list of active
//! formatting elements and the stack of open elements, holding handles to
//! the nodes of a DOM arena.
use vstd::prelude::*;
use crate::dom::arena::NodeRef;
use crate::dom::node::{Arena, Node};

verus! {

/// An entry of the list of active formatting elements.
#[derive(PartialEq, Eq, Structural, PartialOrd, Ord, Debug, Clone, Copy)]
pub enum ActiveFormattingElement {
    Marker,
    Element(NodeRef),
}

/// A place in the list of active formatting elements.
#[derive(PartialEq, Eq, Structural, PartialOrd, Ord, Debug, Clone, Copy)]
pub enum Position {
    End,
    LastMarkerOrElseStart,
}

/// Node `r` of `arena` is an element whose local name is `tag`.
pub open spec fn tagged(arena: &Arena, r: NodeRef, tag: Seq<char>) -> bool {
    arena.nodes()[r as int].has_tag(tag)
}

/// Node `r` of `arena` is an element whose local name is one of `tags`.
pub open spec fn tagged_one_of(arena: &Arena, r: NodeRef, tags: Seq<Seq<char>>) -> bool {
    exists|i: int| 0 <= i < tags.len() && tagged(arena, r, #[trigger] tags[i])
}

/// The list of active formatting elements.
#[derive(PartialEq, Eq, PartialOrd, Ord, Debug, Clone)]
pub struct ListOfActiveFormattingElements {
    elements: Vec<ActiveFormattingElement>,
}

impl View for ListOfActiveFormattingElements {
    type V = Seq<ActiveFormattingElement>;

    closed spec fn view(&self) -> Seq<ActiveFormattingElement> {
        self.elements@
    }
}

/// The index of the place `p` in a list `s`: the end of the list is its
/// length; the last marker, or the start of the list where it has no
/// marker, is the index just after that marker, or 0.
pub open spec fn index_from_position_spec(s: Seq<ActiveFormattingElement>, p: Position) -> int {
    match p {
        Position::End => s.len() as int,
        Position::LastMarkerOrElseStart => match s.index_of_last(ActiveFormattingElement::Marker) {
            Some(i) => i + 1,
            None => 0,
        },
    }
}

impl ListOfActiveFormattingElements {
    /// An empty list.
    pub fn new() -> (res: Self)
        ensures
            res@ == Seq::<ActiveFormattingElement>::empty(),
    {
        Self { elements: Vec::new() }
    }

    /// The number of entries.
    pub fn len(&self) -> (res: usize)
        ensures
            res == self@.len(),
    {
        self.elements.len()
    }

    /// Pushes element `element` onto the list.
    pub fn push_element(&mut self, element: NodeRef)
        ensures
            final(self)@ == old(self)@.push(ActiveFormattingElement::Element(element)),
    {
        self.elements.push(ActiveFormattingElement::Element(element));
    }

    /// Pushes a marker onto the list.
    pub fn insert_marker_at_end(&mut self)
        ensures
            final(self)@ == old(self)@.push(ActiveFormattingElement::Marker),
    {
        self.elements.push(ActiveFormattingElement::Marker);
    }

    /// The index of the first entry for element `target`.
    pub fn first_index_of(&self, target: NodeRef) -> (res: Option<usize>)
        ensures
            match self@.index_of_first(ActiveFormattingElement::Element(target)) {
                Some(i) => res is Some && res.unwrap() as int == i,
                None => res is None,
            },
    {
        let x = ActiveFormattingElement::Element(target);
        let mut i: usize = 0;
        while i < self.elements.len()
            invariant
                i <= self@.len(),
                self.elements@ == self@,
                x == ActiveFormattingElement::Element(target),
                forall|j: int| 0 <= j < i ==> self@[j] != x,
            decreases self@.len() - i,
        {
            if self.elements[i] == x {
                proof {
                    assert(self@[i as int] == x);
                    assert(self@.contains(x));
                    self@.index_of_first_ensures(x);
                    let k = self@.index_of_first(x).unwrap();
                    if k < i {
                        assert(self@[k] != x);
                    }
                    if k > i {
                        assert(self@[i as int] != x);
                    }
                    assert(k == i);
                }
                return Some(i);
            }
            i += 1;
        }
        proof {
            self@.index_of_first_ensures(x);
        }
        None
    }

    /// Replaces the first entry for element `target` by one for
    /// `replacement`; nothing happens where there is none.
    pub fn replace(&mut self, target: NodeRef, replacement: NodeRef)
        ensures
            match old(self)@.index_of_first(ActiveFormattingElement::Element(target)) {
                Some(i) => final(self)@ == old(self)@.update(
                    i,
                    ActiveFormattingElement::Element(replacement),
                ),
                None => final(self)@ == old(self)@,
            },
    {
        proof {
            self@.index_of_first_ensures(ActiveFormattingElement::Element(target));
        }
        match self.first_index_of(target) {
            Some(i) => {
                self.elements.set(i, ActiveFormattingElement::Element(replacement));
            },
            None => {},
        }
    }

    /// Inserts an entry for `element` at `index`.
    pub fn insert(&mut self, index: usize, element: NodeRef)
        requires
            index <= old(self)@.len(),
        ensures
            final(self)@ == old(self)@.insert(index as int, ActiveFormattingElement::Element(element)),
    {
        self.elements.insert(index, ActiveFormattingElement::Element(element));
    }

    /// Removes the first entry for `element`; nothing happens where there is
    /// none.
    pub fn remove(&mut self, element: NodeRef)
        ensures
            match old(self)@.index_of_first(ActiveFormattingElement::Element(element)) {
                Some(i) => final(self)@ == old(self)@.remove(i),
                None => final(self)@ == old(self)@,
            },
    {
        proof {
            self@.index_of_first_ensures(ActiveFormattingElement::Element(element));
        }
        match self.first_index_of(element) {
            Some(i) => {
                self.elements.remove(i);
            },
            None => {},
        }
    }

    /// Whether the list has an entry for element `target`.
    pub fn contains(&self, target: NodeRef) -> (res: bool)
        ensures
            res == self@.contains(ActiveFormattingElement::Element(target)),
    {
        let r = self.first_index_of(target);
        proof {
            self@.index_of_first_ensures(ActiveFormattingElement::Element(target));
        }
        r.is_some()
    }

    /// Every element of the list is a node of `arena`.
    pub open spec fn valid_in(&self, arena: &Arena) -> bool {
        forall|i: int|
            0 <= i < self@.len() ==> (#[trigger] self@[i] matches ActiveFormattingElement::Element(
                r,
            ) ==> arena.valid(r))
    }

    /// The last element entry with local name `tag_name` after the last
    /// marker, looking from the end.
    pub fn last_element_with_tag_name_before_marker(&self, arena: &Arena, tag_name: &str) -> (res:
        Option<NodeRef>)
        requires
            self.valid_in(arena),
        ensures
            match res {
                Some(r) => exists|j: int|
                    0 <= j < self@.len() && #[trigger] self@[j] == ActiveFormattingElement::Element(
                        r,
                    ) && tagged(arena, r, tag_name@) && no_marker_or_tag_after(
                        self@,
                        arena,
                        j,
                        tag_name@,
                    ),
                None => forall|j: int|
                    0 <= j < self@.len() && (#[trigger] self@[j] matches ActiveFormattingElement::Element(
                        r,
                    ) && tagged(arena, r, tag_name@)) ==> !no_marker_or_tag_after(
                        self@,
                        arena,
                        j,
                        tag_name@,
                    ),
            },
    {
        let mut i: usize = self.elements.len();
        while i > 0
            invariant
                i <= self@.len(),
                self.elements@ == self@,
                self.valid_in(arena),
                no_marker_or_tag_after(self@, arena, i - 1, tag_name@),
            decreases i,
        {
            i -= 1;
            match self.elements[i] {
                ActiveFormattingElement::Marker => {
                    proof {
                        assert forall|j: int|
                            0 <= j < self@.len() && (#[trigger] self@[j] matches ActiveFormattingElement::Element(
                                r,
                            ) && tagged(arena, r, tag_name@)) implies !no_marker_or_tag_after(
                            self@,
                            arena,
                            j,
                            tag_name@,
                        ) by {
                            if j < i {
                                assert(self@[i as int] == ActiveFormattingElement::Marker);
                            }
                        }
                    }
                    return None;
                },
                ActiveFormattingElement::Element(element) => {
                    if arena.get(element).is_element_with_tag(tag_name) {
                        return Some(element);
                    }
                },
            }
        }
        None
    }
}

/// No entry of `s` after index `j` is a marker or an element with local
/// name `tag`.
pub open spec fn no_marker_or_tag_after(
    s: Seq<ActiveFormattingElement>,
    arena: &Arena,
    j: int,
    tag: Seq<char>,
) -> bool {
    forall|k: int|
        j < k < s.len() ==> match #[trigger] s[k] {
            ActiveFormattingElement::Marker => false,
            ActiveFormattingElement::Element(r) => !tagged(arena, r, tag),
        }
}

} // verus!

verus! {

/// The smaller index of the places `p` and `q`.
pub open spec fn places_low(s: Seq<ActiveFormattingElement>, p: Position, q: Position) -> int {
    let a = index_from_position_spec(s, p);
    let b = index_from_position_spec(s, q);
    if a < b { a } else { b }
}

/// The larger index of the places `p` and `q`.
pub open spec fn places_high(s: Seq<ActiveFormattingElement>, p: Position, q: Position) -> int {
    let a = index_from_position_spec(s, p);
    let b = index_from_position_spec(s, q);
    if a < b { b } else { a }
}

/// Some element entry of `s` in `[start, end)` has local name `tag`.
pub open spec fn has_tagged_element_between(
    s: Seq<ActiveFormattingElement>,
    arena: &Arena,
    start: int,
    end: int,
    tag: Seq<char>,
) -> bool {
    exists|i: int|
        start <= i < end && 0 <= i < s.len() && (#[trigger] s[i] matches ActiveFormattingElement::Element(
            r,
        ) && tagged(arena, r, tag))
}

impl ListOfActiveFormattingElements {
    fn index_from_position(&self, position: Position) -> (res: usize)
        ensures
            res as int == index_from_position_spec(self@, position),
    {
        match position {
            Position::End => self.elements.len(),
            Position::LastMarkerOrElseStart => {
                let ghost x = ActiveFormattingElement::Marker;
                let mut i: usize = self.elements.len();
                while i > 0
                    invariant
                        i <= self@.len(),
                        self.elements@ == self@,
                        position == Position::LastMarkerOrElseStart,
                        x == ActiveFormattingElement::Marker,
                        forall|j: int| i <= j < self@.len() ==> self@[j] != x,
                    decreases i,
                {
                    i -= 1;
                    if matches!(self.elements[i], ActiveFormattingElement::Marker) {
                        proof {
                            assert(self@[i as int] == x);
                            self@.index_of_last_ensures(x);
                            let k = self@.index_of_last(x).unwrap();
                            if k < i {
                                assert(self@[i as int] != x);
                            }
                            if k > i {
                                assert(self@[k] != x);
                            }
                            assert(k == i);
                        }
                        return i + 1;
                    }
                }
                proof {
                    self@.index_of_last_ensures(x);
                }
                0
            },
        }
    }

    /// Whether an element entry with local name `tag_name` lies between the
    /// places `start` and `end`, in whichever order they come.
    pub fn contains_element_between(
        &self,
        arena: &Arena,
        start: Position,
        end: Position,
        tag_name: &str,
    ) -> (res: bool)
        requires
            self.valid_in(arena),
        ensures
            res == has_tagged_element_between(
                self@,
                arena,
                places_low(self@, start, end),
                places_high(self@, start, end),
                tag_name@,
            ),
    {
        let a = self.index_from_position(start);
        let b = self.index_from_position(end);
        let first = if a < b { a } else { b };
        let last = if a < b { b } else { a };
        let mut i = first;
        while i < last
            invariant
                first <= i,
                self.valid_in(arena),
                self.elements@ == self@,
                places_low(self@, start, end) == first as int,
                places_high(self@, start, end) == last as int,
                forall|j: int|
                    first <= j < i && 0 <= j < self@.len() ==> !(#[trigger] self@[j] matches ActiveFormattingElement::Element(
                        r,
                    ) && tagged(arena, r, tag_name@)),
            decreases last - i,
        {
            if i < self.elements.len() {
                match self.elements[i] {
                    ActiveFormattingElement::Element(element) => {
                        let tags = [tag_name];
                        if arena.get(element).is_element_with_one_of_tags(&tags) {
                            assert(tags@[0]@ == tag_name@);
                            assert(self@[i as int] == ActiveFormattingElement::Element(element));
                            assert(tagged(arena, element, tag_name@));
                            return true;
                        }
                    },
                    ActiveFormattingElement::Marker => {},
                }
            }
            i += 1;
        }
        false
    }

    /// Reconstructs the active formatting elements: there is nothing to do
    /// where the list is empty or its last entry is a marker or an element
    /// that is in the stack of open elements.
    pub fn reconstruct_if_any(&self, stack_of_open_elements: &StackOfOpenElements)
        requires
            nothing_to_reconstruct(self@, stack_of_open_elements@),
    {
    }
}

/// The list of active formatting elements `s` needs no reconstruction
/// against the stack of open elements `open`.
pub open spec fn nothing_to_reconstruct(s: Seq<ActiveFormattingElement>, open: Seq<NodeRef>) -> bool {
    s.len() == 0 || match s.last() {
        ActiveFormattingElement::Marker => true,
        ActiveFormattingElement::Element(e) => open.contains(e),
    }
}

/// The stack of open elements: the current node is the last one.
#[derive(PartialEq, Eq, Debug, Clone)]
pub struct StackOfOpenElements {
    elements: Vec<NodeRef>,
}

impl View for StackOfOpenElements {
    type V = Seq<NodeRef>;

    closed spec fn view(&self) -> Seq<NodeRef> {
        self.elements@
    }
}

} // verus!
verus! {

/// The local names of the elements that bound every kind of scope.
pub open spec fn base_scope_tags() -> Seq<Seq<char>> {
    seq![
        "applet"@,
        "caption"@,
        "html"@,
        "table"@,
        "td"@,
        "th"@,
        "marquee"@,
        "object"@,
        "template"@,
        "mi"@,
        "mo"@,
        "mn"@,
        "ms"@,
        "mtext"@,
        "annotation-xml"@,
        "foreignObject"@,
        "desc"@,
        "title"@,
    ]
}

/// The local names of the HTML elements of the "special" category.
pub open spec fn html_special_tags() -> Seq<Seq<char>> {
    seq![
        "address"@, "applet"@, "area"@, "article"@, "aside"@, "base"@, "basefont"@,
        "bgsound"@, "blockquote"@, "body"@, "br"@, "button"@, "caption"@, "center"@, "col"@,
        "colgroup"@, "dd"@, "details"@, "dir"@, "div"@, "dl"@, "dt"@, "embed"@, "fieldset"@,
        "figcaption"@, "figure"@, "footer"@, "form"@, "frame"@, "frameset"@, "h1"@, "h2"@,
        "h3"@, "h4"@, "h5"@, "h6"@, "head"@, "header"@, "hgroup"@, "hr"@, "html"@, "iframe"@,
        "img"@, "input"@, "keygen"@, "li"@, "link"@, "listing"@, "main"@, "marquee"@, "menu"@,
        "meta"@, "nav"@, "noembed"@, "noframes"@, "noscript"@, "object"@, "ol"@, "p"@,
        "param"@, "plaintext"@, "pre"@, "script"@, "search"@, "section"@, "select"@,
        "source"@, "style"@, "summary"@, "table"@, "tbody"@, "td"@, "template"@,
        "textarea"@, "tfoot"@, "th"@, "thead"@, "title"@, "tr"@, "track"@, "ul"@, "wbr"@,
        "xmp"@,
    ]
}

/// Node `r` bounds a scope whose list is the base list and `extra`.
pub open spec fn bounds_scope(arena: &Arena, r: NodeRef, extra: Seq<Seq<char>>) -> bool {
    tagged_one_of(arena, r, base_scope_tags()) || tagged_one_of(arena, r, extra)
}

/// Some element of `s` with local name `tag` has no scope boundary above
/// it.
pub open spec fn tag_in_scope(s: Seq<NodeRef>, arena: &Arena, tag: Seq<char>, extra: Seq<Seq<char>>) -> bool {
    exists|j: int|
        0 <= j < s.len() && tagged(arena, #[trigger] s[j], tag) && forall|k: int|
            j < k < s.len() ==> !bounds_scope(arena, #[trigger] s[k], extra)
}

/// Node `target` is in `s` with no scope boundary above it.
pub open spec fn node_in_scope(s: Seq<NodeRef>, arena: &Arena, target: NodeRef) -> bool {
    exists|j: int|
        0 <= j < s.len() && #[trigger] s[j] == target && forall|k: int|
            j < k < s.len() ==> !bounds_scope(arena, #[trigger] s[k], Seq::empty())
}

/// `k` is the index of the last element of `s` with local name `tag`.
pub open spec fn is_last_tagged(s: Seq<NodeRef>, arena: &Arena, tag: Seq<char>, k: int) -> bool {
    &&& 0 <= k < s.len()
    &&& tagged(arena, s[k], tag)
    &&& forall|j: int| k < j < s.len() ==> !tagged(arena, #[trigger] s[j], tag)
}

/// Whether node `r` is one of the elements named in `tags`.
fn node_has_one_of_tags(arena: &Arena, r: NodeRef, tags: &[&str]) -> (res: bool)
    requires
        arena.valid(r),
    ensures
        res == tagged_one_of(arena, r, tags@.map_values(|t: &str| t@)),
{
    let res = arena.get(r).is_element_with_one_of_tags(tags);
    proof {
        let ts = tags@.map_values(|t: &str| t@);
        if res {
            let i = choose|i: int| 0 <= i < tags@.len() && arena.nodes()[r as int].has_tag(#[trigger] tags@[i]@);
            assert(ts[i] == tags@[i]@);
        }
        if tagged_one_of(arena, r, ts) {
            let i = choose|i: int| 0 <= i < ts.len() && tagged(arena, r, #[trigger] ts[i]);
            assert(ts[i] == tags@[i]@);
        }
    }
    res
}

/// Whether node `r` bounds a scope whose list is the base list and `extra`.
fn bounds_scope_exec(arena: &Arena, r: NodeRef, extra: &[&str]) -> (res: bool)
    requires
        arena.valid(r),
    ensures
        res == bounds_scope(arena, r, extra@.map_values(|t: &str| t@)),
{
    let base: [&str; 18] = [
        "applet",
        "caption",
        "html",
        "table",
        "td",
        "th",
        "marquee",
        "object",
        "template",
        "mi",
        "mo",
        "mn",
        "ms",
        "mtext",
        "annotation-xml",
        "foreignObject",
        "desc",
        "title",
    ];
    proof {
        assert(base@.map_values(|t: &str| t@) =~= base_scope_tags());
    }
    node_has_one_of_tags(arena, r, &base) || node_has_one_of_tags(arena, r, extra)
}

impl StackOfOpenElements {
    /// Every element of the stack is a node of `arena`.
    pub open spec fn valid_in(&self, arena: &Arena) -> bool {
        forall|i: int| 0 <= i < self@.len() ==> arena.valid(#[trigger] self@[i])
    }

    /// An empty stack.
    pub fn new() -> (res: Self)
        ensures
            res@ == Seq::<NodeRef>::empty(),
    {
        Self { elements: Vec::new() }
    }

    /// The current node: the bottommost node of the stack.
    pub fn current_node(&self) -> (res: Option<NodeRef>)
        ensures
            res == (if self@.len() > 0 {
                Some(self@.last())
            } else {
                None::<NodeRef>
            }),
    {
        let n = self.elements.len();
        if n > 0 {
            Some(self.elements[n - 1])
        } else {
            None
        }
    }

    /// The adjusted current node, which is the current node.
    pub fn adjusted_current_node(&self) -> (res: Option<NodeRef>)
        ensures
            res == (if self@.len() > 0 {
                Some(self@.last())
            } else {
                None::<NodeRef>
            }),
    {
        self.current_node()
    }

    /// The topmost node of the stack.
    pub fn first(&self) -> (res: Option<NodeRef>)
        ensures
            res == (if self@.len() > 0 {
                Some(self@[0])
            } else {
                None::<NodeRef>
            }),
    {
        if self.elements.len() > 0 {
            Some(self.elements[0])
        } else {
            None
        }
    }

    pub fn push(&mut self, element: NodeRef)
        ensures
            final(self)@ == old(self)@.push(element),
    {
        self.elements.push(element);
    }

    /// Pops the current node, if any.
    pub fn pop(&mut self)
        ensures
            final(self)@ == (if old(self)@.len() > 0 {
                old(self)@.drop_last()
            } else {
                old(self)@
            }),
    {
        if self.elements.len() > 0 {
            self.elements.pop();
        }
    }

    pub fn is_empty(&self) -> (res: bool)
        ensures
            res == (self@.len() == 0),
    {
        self.elements.len() == 0
    }

    pub fn clear(&mut self)
        ensures
            final(self)@ == Seq::<NodeRef>::empty(),
    {
        self.elements.clear();
    }

    pub fn contains(&self, target: NodeRef) -> (res: bool)
        ensures
            res == self@.contains(target),
    {
        let mut i: usize = 0;
        while i < self.elements.len()
            invariant
                i <= self@.len(),
                self.elements@ == self@,
                forall|j: int| 0 <= j < i ==> self@[j] != target,
            decreases self@.len() - i,
        {
            if self.elements[i] == target {
                assert(self@[i as int] == target);
                return true;
            }
            i += 1;
        }
        false
    }

    fn first_index(&self, target: NodeRef) -> (res: Option<usize>)
        ensures
            match self@.index_of_first(target) {
                Some(i) => res is Some && res.unwrap() as int == i,
                None => res is None,
            },
    {
        let mut i: usize = 0;
        while i < self.elements.len()
            invariant
                i <= self@.len(),
                self.elements@ == self@,
                forall|j: int| 0 <= j < i ==> self@[j] != target,
            decreases self@.len() - i,
        {
            if self.elements[i] == target {
                proof {
                    assert(self@[i as int] == target);
                    self@.index_of_first_ensures(target);
                    let k = self@.index_of_first(target).unwrap();
                    if k < i {
                        assert(self@[k] != target);
                    }
                    if k > i {
                        assert(self@[i as int] != target);
                    }
                }
                return Some(i);
            }
            i += 1;
        }
        proof {
            self@.index_of_first_ensures(target);
        }
        None
    }

    /// Inserts `element` just below the first entry of `target`; nothing
    /// happens where `target` is not in the stack.
    pub fn insert_immediately_below(&mut self, element: NodeRef, target: NodeRef)
        ensures
            match old(self)@.index_of_first(target) {
                Some(i) => final(self)@ == old(self)@.insert(i + 1, element),
                None => final(self)@ == old(self)@,
            },
    {
        proof {
            self@.index_of_first_ensures(target);
        }
        assert(self.elements.len() == self@.len());
        match self.first_index(target) {
            Some(i) => {
                self.elements.insert(i + 1, element);
            },
            None => {},
        }
    }

    /// Replaces the first entry of `target` by `replacement`.
    pub fn replace(&mut self, target: NodeRef, replacement: NodeRef)
        ensures
            match old(self)@.index_of_first(target) {
                Some(i) => final(self)@ == old(self)@.update(i, replacement),
                None => final(self)@ == old(self)@,
            },
    {
        proof {
            self@.index_of_first_ensures(target);
        }
        match self.first_index(target) {
            Some(i) => {
                self.elements.set(i, replacement);
            },
            None => {},
        }
    }

    /// Removes the first entry of `element`.
    pub fn remove_element(&mut self, element: NodeRef)
        ensures
            match old(self)@.index_of_first(element) {
                Some(i) => final(self)@ == old(self)@.remove(i),
                None => final(self)@ == old(self)@,
            },
    {
        proof {
            self@.index_of_first_ensures(element);
        }
        match self.first_index(element) {
            Some(i) => {
                self.elements.remove(i);
            },
            None => {},
        }
    }

    /// Pops nodes until node `node` has been popped.
    pub fn pop_elements_until_element_has_been_popped(&mut self, node: NodeRef)
        requires
            old(self)@.contains(node),
        ensures
            final(self)@ == old(self)@.take(old(self)@.index_of_last(node).unwrap()),
    {
        let ghost s = self@;
        proof {
            s.index_of_last_ensures(node);
        }
        let ghost k = s.index_of_last(node).unwrap();
        while self.current_node() != Some(node)
            invariant
                s == old(self)@,
                k == s.index_of_last(node).unwrap(),
                0 <= k < s.len(),
                s[k] == node,
                forall|j: int| k < j < s.len() ==> s[j] != node,
                k < self@.len() <= s.len(),
                self@ == s.take(self@.len() as int),
            decreases self@.len(),
        {
            self.pop();
        }
        assert(self@.len() == k + 1);
        self.pop();
        assert(self@ =~= s.take(k));
    }

    /// Pops nodes until an element with local name `tag_name` has been
    /// popped.
    pub fn pop_elements_until_element_with_tag_name_has_been_popped(
        &mut self,
        arena: &Arena,
        tag_name: &str,
    )
        requires
            old(self).valid_in(arena),
            exists|j: int| 0 <= j < old(self)@.len() && tagged(arena, #[trigger] old(self)@[j], tag_name@),
        ensures
            exists|k: int| is_last_tagged(old(self)@, arena, tag_name@, k) && final(self)@ == old(
                self,
            )@.take(k),
    {
        let ghost s = self@;
        let ghost j0 = choose|j: int| 0 <= j < s.len() && tagged(arena, #[trigger] s[j], tag_name@);
        loop
            invariant
                s == old(self)@,
                old(self).valid_in(arena),
                0 <= j0 < s.len(),
                tagged(arena, s[j0], tag_name@),
                j0 < self@.len() <= s.len(),
                self@ == s.take(self@.len() as int),
                forall|j: int| self@.len() <= j < s.len() ==> !tagged(arena, #[trigger] s[j], tag_name@),
            decreases self@.len(),
        {
            let n = self.elements.len();
            let current = self.elements[n - 1];
            assert(current == s[n - 1]);
            if arena.get(current).is_element_with_tag(tag_name) {
                self.pop();
                assert(is_last_tagged(s, arena, tag_name@, n - 1));
                assert(self@ =~= s.take(n - 1));
                return;
            }
            self.pop();
            assert(self@ =~= s.take(n - 1));
        }
    }

    /// The node just above the last entry of `target` that is not `target`
    /// itself.
    pub fn element_immediately_above(&self, target: NodeRef) -> (res: Option<NodeRef>)
        ensures
            match self@.index_of_last(target) {
                None => res is None,
                Some(k) => match res {
                    Some(r) => exists|j: int|
                        0 <= j < k && #[trigger] self@[j] == r && r != target && forall|m: int|
                            j < m < k ==> self@[m] == target,
                    None => forall|m: int| 0 <= m < k ==> self@[m] == target,
                },
            },
    {
        let ghost s = self@;
        proof {
            s.index_of_last_ensures(target);
        }
        let mut found = false;
        let mut i: usize = self.elements.len();
        let ghost mut k: int = s.len() as int;
        while i > 0
            invariant
                s == self@,
                self.elements@ == s,
                i <= s.len(),
                found ==> (s.index_of_last(target) == Some(k) && i <= k && forall|m: int|
                    i <= m < k ==> s[m] == target),
                !found ==> forall|m: int| i <= m < s.len() ==> s[m] != target,
            decreases i,
        {
            i -= 1;
            let e = self.elements[i];
            if e == target {
                if !found {
                    proof {
                        assert(s[i as int] == target);
                        s.index_of_last_ensures(target);
                        let l = s.index_of_last(target).unwrap();
                        if l < i {
                            assert(s[i as int] != target);
                        }
                        if l > i {
                            assert(s[l] != target);
                        }
                        k = i as int;
                    }
                }
                found = true;
            } else if found {
                assert(s[i as int] == e);
                return Some(e);
            }
        }
        proof {
            if !found {
                assert(!s.contains(target));
            }
        }
        None
    }

    /// Whether `target` is in the stack with no scope boundary above it.
    pub fn has_element_in_scope(&self, arena: &Arena, target_node: NodeRef) -> (res: bool)
        requires
            self.valid_in(arena),
            exists|j: int|
                0 <= j < self@.len() && (#[trigger] self@[j] == target_node || bounds_scope(
                    arena,
                    self@[j],
                    Seq::empty(),
                )),
        ensures
            res == node_in_scope(self@, arena, target_node),
    {
        let none: [&str; 0] = [];
        assert(none@.map_values(|t: &str| t@) =~= Seq::<Seq<char>>::empty());
        let mut i: usize = self.elements.len();
        while i > 0
            invariant
                i <= self@.len(),
                self.elements@ == self@,
                self.valid_in(arena),
                none@.map_values(|t: &str| t@) == Seq::<Seq<char>>::empty(),
                forall|k: int|
                    i <= k < self@.len() ==> #[trigger] self@[k] != target_node && !bounds_scope(
                        arena,
                        self@[k],
                        Seq::empty(),
                    ),
            decreases i,
        {
            i -= 1;
            let node = self.elements[i];
            if node == target_node {
                assert(self@[i as int] == target_node);
                return true;
            }
            if bounds_scope_exec(arena, node, &none) {
                proof {
                    assert forall|j: int|
                        0 <= j < self@.len() && #[trigger] self@[j] == target_node implies !(forall|k: int|
                        j < k < self@.len() ==> !bounds_scope(arena, #[trigger] self@[k], Seq::empty())) by {
                        assert(j < i);
                        assert(bounds_scope(arena, self@[i as int], Seq::empty()));
                    }
                }
                return false;
            }
        }
        proof {
            let j = choose|j: int|
                0 <= j < self@.len() && (#[trigger] self@[j] == target_node || bounds_scope(
                    arena,
                    self@[j],
                    Seq::empty(),
                ));
            assert(self@[j] != target_node);
        }
        false
    }

    /// Whether an element with local name `target` is in the scope that
    /// `extra` extends.
    pub fn has_tag_name_in_scope(&self, arena: &Arena, target: &str, extra: &[&str]) -> (res: bool)
        requires
            self.valid_in(arena),
            exists|j: int|
                0 <= j < self@.len() && (tagged(arena, #[trigger] self@[j], target@) || bounds_scope(
                    arena,
                    self@[j],
                    extra@.map_values(|t: &str| t@),
                )),
        ensures
            res == tag_in_scope(self@, arena, target@, extra@.map_values(|t: &str| t@)),
    {
        let ghost ex = extra@.map_values(|t: &str| t@);
        let mut i: usize = self.elements.len();
        while i > 0
            invariant
                i <= self@.len(),
                self.elements@ == self@,
                self.valid_in(arena),
                ex == extra@.map_values(|t: &str| t@),
                forall|k: int|
                    i <= k < self@.len() ==> !tagged(arena, #[trigger] self@[k], target@) && !bounds_scope(
                        arena,
                        self@[k],
                        ex,
                    ),
            decreases i,
        {
            i -= 1;
            let node = self.elements[i];
            if arena.get(node).is_element_with_tag(target) {
                assert(tagged(arena, self@[i as int], target@));
                return true;
            }
            if bounds_scope_exec(arena, node, extra) {
                proof {
                    assert forall|j: int|
                        0 <= j < self@.len() && tagged(arena, #[trigger] self@[j], target@) implies !(forall|k: int|
                        j < k < self@.len() ==> !bounds_scope(arena, #[trigger] self@[k], ex)) by {
                        assert(j < i);
                        assert(bounds_scope(arena, self@[i as int], ex));
                    }
                }
                return false;
            }
        }
        proof {
            let j = choose|j: int|
                0 <= j < self@.len() && (tagged(arena, #[trigger] self@[j], target@) || bounds_scope(
                    arena,
                    self@[j],
                    ex,
                ));
            assert(!tagged(arena, self@[j], target@));
        }
        false
    }

    /// Whether an element with local name `tag_name` is in scope.
    pub fn has_element_with_tag_name_in_scope(&self, arena: &Arena, tag_name: &str) -> (res: bool)
        requires
            self.valid_in(arena),
            exists|j: int|
                0 <= j < self@.len() && (tagged(arena, #[trigger] self@[j], tag_name@) || bounds_scope(
                    arena,
                    self@[j],
                    Seq::empty(),
                )),
        ensures
            res == tag_in_scope(self@, arena, tag_name@, Seq::empty()),
    {
        let none: [&str; 0] = [];
        assert(none@.map_values(|t: &str| t@) =~= Seq::<Seq<char>>::empty());
        self.has_tag_name_in_scope(arena, tag_name, &none)
    }

    /// Whether an element with local name `tag_name` is in list item scope.
    pub fn has_element_with_tag_name_in_list_item_scope(&self, arena: &Arena, tag_name: &str) -> (res:
        bool)
        requires
            self.valid_in(arena),
            exists|j: int|
                0 <= j < self@.len() && (tagged(arena, #[trigger] self@[j], tag_name@) || bounds_scope(
                    arena,
                    self@[j],
                    seq!["ol"@, "ul"@],
                )),
        ensures
            res == tag_in_scope(self@, arena, tag_name@, seq!["ol"@, "ul"@]),
    {
        let extra: [&str; 2] = ["ol", "ul"];
        assert(extra@.map_values(|t: &str| t@) =~= seq!["ol"@, "ul"@]);
        self.has_tag_name_in_scope(arena, tag_name, &extra)
    }

    /// Whether an element with local name `tag_name` is in button scope.
    pub fn has_element_with_tag_name_in_button_scope(&self, arena: &Arena, tag_name: &str) -> (res:
        bool)
        requires
            self.valid_in(arena),
            exists|j: int|
                0 <= j < self@.len() && (tagged(arena, #[trigger] self@[j], tag_name@) || bounds_scope(
                    arena,
                    self@[j],
                    seq!["button"@],
                )),
        ensures
            res == tag_in_scope(self@, arena, tag_name@, seq!["button"@]),
    {
        let extra: [&str; 1] = ["button"];
        assert(extra@.map_values(|t: &str| t@) =~= seq!["button"@]);
        self.has_tag_name_in_scope(arena, tag_name, &extra)
    }

    /// The number of entries.
    pub fn len(&self) -> (res: usize)
        ensures
            res == self@.len(),
    {
        self.elements.len()
    }

    /// The entry at `index`, counted from the bottom of the stack.
    pub fn get(&self, index: usize) -> (res: NodeRef)
        requires
            index < self@.len(),
        ensures
            res == self@[index as int],
    {
        self.elements[index]
    }

    /// Whether the stack holds an element with local name `target` or an
    /// element that bounds the scope (with `extra` bounding it too); where
    /// it holds neither, a search of the scope finds no answer.
    pub fn scope_search_ends(&self, arena: &Arena, target: &str, extra: &[&str]) -> (res: bool)
        requires
            self.valid_in(arena),
        ensures
            res == exists|j: int|
                0 <= j < self@.len() && (tagged(arena, #[trigger] self@[j], target@) || bounds_scope(
                    arena,
                    self@[j],
                    extra@.map_values(|t: &str| t@),
                )),
    {
        let mut i: usize = 0;
        while i < self.elements.len()
            invariant
                i <= self@.len(),
                self.elements@ == self@,
                self.valid_in(arena),
                forall|k: int|
                    0 <= k < i ==> !tagged(arena, #[trigger] self@[k], target@) && !bounds_scope(
                        arena,
                        self@[k],
                        extra@.map_values(|t: &str| t@),
                    ),
            decreases self@.len() - i,
        {
            let node = self.elements[i];
            if arena.get(node).is_element_with_tag(target) || bounds_scope_exec(arena, node, extra) {
                assert(tagged(arena, self@[i as int], target@) || bounds_scope(
                    arena,
                    self@[i as int],
                    extra@.map_values(|t: &str| t@),
                ));
                return true;
            }
            i += 1;
        }
        false
    }

    /// Whether the stack holds `target` or an element that bounds the
    /// scope; where it holds neither, a search of the scope finds no answer.
    pub fn node_scope_search_ends(&self, arena: &Arena, target: NodeRef) -> (res: bool)
        requires
            self.valid_in(arena),
        ensures
            res == exists|j: int|
                0 <= j < self@.len() && (#[trigger] self@[j] == target || bounds_scope(
                    arena,
                    self@[j],
                    Seq::empty(),
                )),
    {
        let none: [&str; 0] = [];
        assert(none@.map_values(|t: &str| t@) =~= Seq::<Seq<char>>::empty());
        let mut i: usize = 0;
        while i < self.elements.len()
            invariant
                i <= self@.len(),
                self.elements@ == self@,
                self.valid_in(arena),
                none@.map_values(|t: &str| t@) == Seq::<Seq<char>>::empty(),
                forall|k: int|
                    0 <= k < i ==> #[trigger] self@[k] != target && !bounds_scope(
                        arena,
                        self@[k],
                        Seq::empty(),
                    ),
            decreases self@.len() - i,
        {
            let node = self.elements[i];
            if node == target || bounds_scope_exec(arena, node, &none) {
                assert(self@[i as int] == target || bounds_scope(arena, self@[i as int], Seq::empty()));
                return true;
            }
            i += 1;
        }
        false
    }
}

} // verus!
verus! {

/// The local names of the elements whose end tags are implied.
pub open spec fn implied_end_tags() -> Seq<Seq<char>> {
    seq!["dd"@, "dt"@, "li"@, "optgroup"@, "option"@, "p"@, "rb"@, "rp"@, "rt"@, "rtc"@]
}

/// Node `r` stops the generation of implied end tags: it is an element
/// named `except`, or not one of the elements whose end tags are implied.
pub open spec fn stops_implied_end_tags(arena: &Arena, r: NodeRef, except: Option<Seq<char>>) -> bool {
    (except matches Some(e) && tagged(arena, r, e)) || !tagged_one_of(arena, r, implied_end_tags())
}

/// `k` is how many nodes of `s` stay: every node from `k` on lets the
/// generation go on, and the node before `k`, if any, stops it.
pub open spec fn implied_end_tags_kept(s: Seq<NodeRef>, arena: &Arena, except: Option<Seq<char>>, k: int) -> bool {
    &&& 0 <= k <= s.len()
    &&& k == 0 || stops_implied_end_tags(arena, s[k - 1], except)
    &&& forall|j: int| k <= j < s.len() ==> !stops_implied_end_tags(arena, #[trigger] s[j], except)
}

/// The bound below which `topmost_special_node_below` looks: the last
/// entry of `target`, or -1.
pub open spec fn special_search_bound(s: Seq<NodeRef>, target: NodeRef) -> int {
    match s.index_of_last(target) {
        Some(k) => k,
        None => -1,
    }
}

/// The optional string as a character sequence.
pub open spec fn opt_str(s: Option<&str>) -> Option<Seq<char>> {
    match s {
        Some(s) => Some(s@),
        None => None,
    }
}

impl StackOfOpenElements {
    /// The special element nearest above the last entry of `target` (the
    /// topmost of those below it on the stack); all of the stack where
    /// `target` is not in it.
    pub fn topmost_special_node_below(&self, arena: &Arena, target: NodeRef) -> (res: Option<NodeRef>)
        requires
            self.valid_in(arena),
        ensures
            match res {
                Some(r) => exists|j: int|
                    special_search_bound(self@, target) < j < self@.len() && #[trigger] self@[j] == r
                        && tagged_one_of(arena, r, html_special_tags()) && forall|m: int|
                        special_search_bound(self@, target) < m < j ==> !tagged_one_of(
                            arena,
                            #[trigger] self@[m],
                            html_special_tags(),
                        ),
                None => forall|m: int|
                    special_search_bound(self@, target) < m < self@.len() ==> !tagged_one_of(
                        arena,
                        #[trigger] self@[m],
                        html_special_tags(),
                    ),
            },
    {
        let special: [&str; 83] = [
            "address", "applet", "area", "article", "aside", "base", "basefont", "bgsound",
            "blockquote", "body", "br", "button", "caption", "center", "col", "colgroup", "dd",
            "details", "dir", "div", "dl", "dt", "embed", "fieldset", "figcaption", "figure",
            "footer", "form", "frame", "frameset", "h1", "h2", "h3", "h4", "h5", "h6", "head",
            "header", "hgroup", "hr", "html", "iframe", "img", "input", "keygen", "li", "link",
            "listing", "main", "marquee", "menu", "meta", "nav", "noembed", "noframes",
            "noscript", "object", "ol", "p", "param", "plaintext", "pre", "script", "search",
            "section", "select", "source", "style", "summary", "table", "tbody", "td",
            "template", "textarea", "tfoot", "th", "thead", "title", "tr", "track", "ul", "wbr",
            "xmp",
        ];
        proof {
            assert(special@.map_values(|t: &str| t@) =~= html_special_tags());
        }
        let ghost s = self@;
        proof {
            s.index_of_last_ensures(target);
        }
        let mut best: Option<NodeRef> = None;
        let ghost mut best_at: int = s.len() as int;
        let mut i: usize = self.elements.len();
        while i > 0
            invariant
                s == self@,
                self.elements@ == s,
                self.valid_in(arena),
                i <= s.len(),
                special@.map_values(|t: &str| t@) == html_special_tags(),
                forall|m: int| i <= m < s.len() ==> s[m] != target,
                match best {
                    Some(r) => i <= best_at < s.len() && s[best_at] == r && tagged_one_of(
                        arena,
                        r,
                        html_special_tags(),
                    ) && forall|m: int|
                        i <= m < best_at ==> !tagged_one_of(arena, #[trigger] s[m], html_special_tags()),
                    None => forall|m: int|
                        i <= m < s.len() ==> !tagged_one_of(arena, #[trigger] s[m], html_special_tags()),
                },
            ensures
                i <= s.len(),
                i == 0 ==> !s.contains(target),
                i > 0 ==> special_search_bound(s, target) == i - 1,
                match best {
                    Some(r) => i <= best_at < s.len() && s[best_at] == r && tagged_one_of(
                        arena,
                        r,
                        html_special_tags(),
                    ) && forall|m: int|
                        i <= m < best_at ==> !tagged_one_of(arena, #[trigger] s[m], html_special_tags()),
                    None => forall|m: int|
                        i <= m < s.len() ==> !tagged_one_of(arena, #[trigger] s[m], html_special_tags()),
                },
            decreases i,
        {
            let element = self.elements[i - 1];
            if element == target {
                proof {
                    assert(s[i - 1] == target);
                    s.index_of_last_ensures(target);
                    let l = s.index_of_last(target).unwrap();
                    if l < i - 1 {
                        assert(s[i - 1] != target);
                    }
                    if l > i - 1 {
                        assert(s[l] != target);
                    }
                }
                break;
            }
            i -= 1;
            if node_has_one_of_tags(arena, element, &special) {
                best = Some(element);
                proof {
                    best_at = i as int;
                }
            }
        }
        proof {
            s.index_of_last_ensures(target);
        }
        best
    }

    /// Whether some node of the stack is an element named in `tags`.
    pub fn contains_one_of_tags(&self, arena: &Arena, tags: &[&str]) -> (res: bool)
        requires
            self.valid_in(arena),
        ensures
            res == exists|j: int|
                0 <= j < self@.len() && tagged_one_of(
                    arena,
                    #[trigger] self@[j],
                    tags@.map_values(|t: &str| t@),
                ),
    {
        let mut i: usize = 0;
        while i < self.elements.len()
            invariant
                i <= self@.len(),
                self.elements@ == self@,
                self.valid_in(arena),
                forall|j: int|
                    0 <= j < i ==> !tagged_one_of(
                        arena,
                        #[trigger] self@[j],
                        tags@.map_values(|t: &str| t@),
                    ),
            decreases self@.len() - i,
        {
            if node_has_one_of_tags(arena, self.elements[i], tags) {
                assert(tagged_one_of(arena, self@[i as int], tags@.map_values(|t: &str| t@)));
                return true;
            }
            i += 1;
        }
        false
    }

    /// Generates implied end tags: pops the current node while it is one of
    /// the elements whose end tags are implied (dd, dt, li, optgroup,
    /// option, p, rb, rp, rt, rtc) and not an element named `except_for`.
    pub fn generate_implied_end_tags_except_for(&mut self, arena: &Arena, except_for: Option<&str>)
        requires
            old(self).valid_in(arena),
        ensures
            exists|k: int|
                implied_end_tags_kept(old(self)@, arena, opt_str(except_for), k) && final(self)@
                    == old(self)@.take(k),
    {
        let implied: [&str; 10] = ["dd", "dt", "li", "optgroup", "option", "p", "rb", "rp", "rt", "rtc"];
        proof {
            assert(implied@.map_values(|t: &str| t@) =~= implied_end_tags());
        }
        let ghost s = self@;
        loop
            invariant
                s == old(self)@,
                old(self).valid_in(arena),
                implied@.map_values(|t: &str| t@) == implied_end_tags(),
                self@.len() <= s.len(),
                self@ == s.take(self@.len() as int),
                forall|j: int|
                    self@.len() <= j < s.len() ==> !stops_implied_end_tags(
                        arena,
                        #[trigger] s[j],
                        opt_str(except_for),
                    ),
            decreases self@.len(),
        {
            let n = self.elements.len();
            if n == 0 {
                assert(implied_end_tags_kept(s, arena, opt_str(except_for), 0));
                return;
            }
            let node = self.elements[n - 1];
            assert(node == s[n - 1]);
            let stop_here = match except_for {
                Some(tag) => arena.get(node).is_element_with_tag(tag),
                None => false,
            };
            if stop_here || !node_has_one_of_tags(arena, node, &implied) {
                assert(implied_end_tags_kept(s, arena, opt_str(except_for), n as int));
                return;
            }
            self.pop();
            assert(self@ =~= s.take(n - 1));
        }
    }
}

/// Where a node is to be inserted: in `parent`, after `after` or at the
/// end.
#[derive(PartialEq, Eq, Debug, Clone, Copy)]
pub struct AdjustedInsertionLocation {
    pub parent: NodeRef,
    pub after: Option<NodeRef>,
}

/// The insertion modes of tree construction.
#[derive(PartialEq, Eq, Structural, Debug, Clone, Copy)]
pub enum InsertionMode {
    Initial,
    BeforeHtml,
    BeforeHead,
    InHead,
    InHeadNoscript,
    AfterHead,
    InBody,
    Text,
    InTable,
    InTableText,
    InCaption,
    InColumnGroup,
    InTableBody,
    InRow,
    InCell,
    InSelect,
    InSelectInTable,
    InTemplate,
    AfterBody,
    InFrameset,
    AfterFrameset,
    AfterAfterBody,
    AfterAfterFrameset,
}

/// Tab, line feed, form feed, carriage return or space.
pub open spec fn is_parser_whitespace_spec(c: char) -> bool {
    c == '\t' || c == '\n' || c == '\u{0C}' || c == '\r' || c == ' '
}

/// Whether `c` is whitespace to the tree builder.
pub fn is_parser_whitespace(c: char) -> (res: bool)
    ensures
        res == is_parser_whitespace_spec(c),
{
    c == '\t' || c == '\n' || c == '\u{0C}' || c == '\r' || c == ' '
}

} // verus!

verus! {

/// Popping the stack after pushing a node leaves the stack as it was.
pub proof fn lemma_pop_undoes_push(s: Seq<NodeRef>, x: NodeRef)
    ensures
        s.push(x).len() > 0,
        s.push(x).drop_last() == s,
{
    assert(s.push(x).drop_last() =~= s);
}

/// Removing an element that was pushed onto a list that did not hold it
/// leaves the list as it was; before that, the list holds it.
pub proof fn lemma_remove_undoes_push(s: Seq<ActiveFormattingElement>, e: NodeRef)
    requires
        !s.contains(ActiveFormattingElement::Element(e)),
    ensures
        s.push(ActiveFormattingElement::Element(e)).contains(ActiveFormattingElement::Element(e)),
        s.push(ActiveFormattingElement::Element(e)).index_of_first(ActiveFormattingElement::Element(e))
            == Some(s.len() as int),
        s.push(ActiveFormattingElement::Element(e)).remove(s.len() as int) == s,
{
    let x = ActiveFormattingElement::Element(e);
    let t = s.push(x);
    assert(t[s.len() as int] == x);
    t.index_of_first_ensures(x);
    let k = t.index_of_first(x).unwrap();
    if k < s.len() {
        assert(s[k] == x);
    }
    assert(t.remove(s.len() as int) =~= s);
}

} // verus!
