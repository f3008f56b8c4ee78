//! Tree construction: the HTML parser that turns the tokens of the
//! tokenizer into a DOM tree.
use vstd::prelude::*;
use crate::dom::arena::NodeRef;
use crate::dom::node::{doc_of, special_tags, Arena, CharacterDataVariant, Node, NodeData};
use crate::dom::{Namespace, QualifiedName};
use crate::html_tokenizer::{
    after_next_token, at_end, attribute_models, emits_within, last_token, switched, Attribute, State, Token,
    TokenModel, Tokenizer, TokenizerModel,
};
use crate::text::{chars_of, owned, str_eq};
use crate::tree_construction::{
    html_special_tags, implied_end_tags, implied_end_tags_kept, is_last_tagged, no_marker_or_tag_after,
    node_in_scope, special_search_bound, is_parser_whitespace, is_parser_whitespace_spec, opt_str,
    tag_in_scope, tagged, tagged_one_of, ActiveFormattingElement, InsertionMode,
    ListOfActiveFormattingElements, Position, StackOfOpenElements, places_high, places_low,
    has_tagged_element_between,
};

verus! {

/// The data of an HTML element with local name `tag`, no prefix and no
/// attributes, as the parser creates it.
pub open spec fn is_html_element(d: NodeData, tag: Seq<char>) -> bool {
    &&& d matches NodeData::Element { name, namespace, attributes }
    &&& name.local@ == tag
    &&& name.prefix is None
    &&& name.namespace == Some(Namespace::Html)
    &&& namespace == Some(Namespace::Html)
    &&& attributes@.len() == 0
}

/// `ns` is `os` with a new childless HTML element with local name `tag`
/// appended to the children of `p`.
pub open spec fn appended_element(os: Seq<Node>, ns: Seq<Node>, p: int, tag: Seq<char>) -> bool {
    &&& ns.len() == os.len() + 1
    &&& appended(os, ns, p, ns[os.len() as int].node_data())
    &&& is_html_element(ns[os.len() as int].node_data(), tag)
}

/// `ns` is `os` with one new childless node with data `d` appended to the
/// children of `p`; nothing else changes but the sibling links that the
/// tree invariant determines.
pub open spec fn appended(os: Seq<Node>, ns: Seq<Node>, p: int, d: NodeData) -> bool {
    let e = os.len() as int;
    &&& ns.len() == os.len() + 1
    &&& ns[e].node_data() == d
    &&& ns[e].child_list().len() == 0
    &&& ns[e].parent_link() == Some(p as NodeRef)
    &&& ns[p].child_list() == os[p].child_list().push(e as NodeRef)
    &&& ns[p].node_data() == os[p].node_data()
    &&& ns[p].parent_link() == os[p].parent_link()
    &&& forall|i: int|
        0 <= i < os.len() && i != p ==> {
            &&& (#[trigger] ns[i]).node_data() == os[i].node_data()
            &&& ns[i].child_list() == os[i].child_list()
            &&& ns[i].parent_link() == os[i].parent_link()
        }
}

/// `ns` is `os` with the detached node `n` appended to the children of
/// `p`; nothing else changes but the sibling links that the tree invariant
/// determines.
pub open spec fn attached(os: Seq<Node>, ns: Seq<Node>, p: int, n: int) -> bool {
    &&& ns.len() == os.len()
    &&& ns[n].parent_link() == Some(p as NodeRef)
    &&& ns[p].child_list() == os[p].child_list().push(n as NodeRef)
    &&& forall|i: int| 0 <= i < os.len() ==> (#[trigger] ns[i]).node_data() == os[i].node_data()
    &&& forall|i: int| 0 <= i < os.len() && i != p ==> (#[trigger] ns[i]).child_list() == os[i].child_list()
    &&& forall|i: int| 0 <= i < os.len() && i != n ==> (#[trigger] ns[i]).parent_link() == os[i].parent_link()
}

/// The children `b` begin with the children `a`.
pub open spec fn extends(a: Seq<NodeRef>, b: Seq<NodeRef>) -> bool {
    a.len() <= b.len() && forall|j: int| 0 <= j < a.len() ==> b[j] == a[j]
}

/// The DOM `ns` grew from `os`: no node went away or changed its data, no
/// child went away or moved, and no node got another parent.
pub open spec fn dom_grows(os: Seq<Node>, ns: Seq<Node>) -> bool {
    &&& os.len() <= ns.len()
    &&& forall|i: int|
        0 <= i < os.len() ==> {
            &&& (#[trigger] ns[i]).node_data() == os[i].node_data()
            &&& extends(os[i].child_list(), ns[i].child_list())
            &&& (os[i].parent_link() is Some ==> ns[i].parent_link() == os[i].parent_link())
        }
}

/// Growing is transitive.
pub proof fn lemma_dom_grows_trans(a: Seq<Node>, b: Seq<Node>, c: Seq<Node>)
    requires
        dom_grows(a, b),
        dom_grows(b, c),
    ensures
        dom_grows(a, c),
{
    assert forall|i: int| 0 <= i < a.len() implies {
        &&& (#[trigger] c[i]).node_data() == a[i].node_data()
        &&& extends(a[i].child_list(), c[i].child_list())
        &&& (a[i].parent_link() is Some ==> c[i].parent_link() == a[i].parent_link())
    } by {
        assert(dom_grows(a, b) && 0 <= i < b.len());
        let (x, y, z) = (a[i].child_list(), b[i].child_list(), c[i].child_list());
        assert forall|j: int| 0 <= j < x.len() implies z[j] == x[j] by {
            assert(y[j] == x[j]);
            assert(z[j] == y[j]);
        }
    }
}

/// The characters of an optional string, or none.
pub open spec fn or_empty(s: Option<Seq<char>>) -> Seq<char> {
    match s {
        Some(x) => x,
        None => Seq::empty(),
    }
}

/// `ns` is `os` with a new comment node holding `data` appended to the
/// children of `p`.
pub open spec fn appended_comment(os: Seq<Node>, ns: Seq<Node>, p: int, data: Seq<char>) -> bool {
    &&& ns.len() == os.len() + 1
    &&& appended(os, ns, p, ns[os.len() as int].node_data())
    &&& ns[os.len() as int].node_data() matches NodeData::CharacterData { data: d, variant }
    &&& variant == CharacterDataVariant::Comment
    &&& d@ == data
}

/// `ns` is `os` with a new doctype node for the DOCTYPE token `t` appended
/// to the children of `p`: its name and identifiers are those of the
/// token, or empty where the token has none.
pub open spec fn appended_doctype(os: Seq<Node>, ns: Seq<Node>, p: int, t: TokenModel) -> bool {
    &&& ns.len() == os.len() + 1
    &&& appended(os, ns, p, ns[os.len() as int].node_data())
    &&& ns[os.len() as int].node_data() matches NodeData::Doctype { name, public_id, system_id }
    &&& name@ == or_empty(t->Doctype_name)
    &&& public_id@ == or_empty(t->Doctype_public_identifier)
    &&& system_id@ == or_empty(t->Doctype_system_identifier)
}

/// The stack without its current node.
pub open spec fn popped(s: Seq<NodeRef>) -> Seq<NodeRef> {
    if s.len() > 0 {
        s.drop_last()
    } else {
        s
    }
}

/// The parser.
pub struct Parser {
    arena: Arena,
    tokenizer: Tokenizer,
    new_tokenizer_state: Option<State>,
    document: NodeRef,
    insertion_mode: InsertionMode,
    original_insertion_mode: Option<InsertionMode>,
    open_elements: StackOfOpenElements,
    active_formatting_elements: ListOfActiveFormattingElements,
    head_element: Option<NodeRef>,
    form_element: Option<NodeRef>,
    scripting: bool,
    frameset_ok: bool,
}

impl Parser {
    /// The nodes of the DOM built so far.
    pub closed spec fn nodes(&self) -> Seq<Node> {
        self.arena.nodes()
    }

    /// The document node.
    pub closed spec fn document_spec(&self) -> NodeRef {
        self.document
    }

    /// The current insertion mode.
    pub closed spec fn mode(&self) -> InsertionMode {
        self.insertion_mode
    }

    /// The insertion mode to return to after the "text" mode.
    pub closed spec fn original_mode(&self) -> Option<InsertionMode> {
        self.original_insertion_mode
    }

    /// The stack of open elements, bottom first.
    pub closed spec fn stack(&self) -> Seq<NodeRef> {
        self.open_elements@
    }

    /// The list of active formatting elements.
    pub closed spec fn formatting(&self) -> Seq<ActiveFormattingElement> {
        self.active_formatting_elements@
    }

    /// The head element pointer.
    pub closed spec fn head(&self) -> Option<NodeRef> {
        self.head_element
    }

    /// The form element pointer.
    pub closed spec fn form(&self) -> Option<NodeRef> {
        self.form_element
    }

    /// The frameset-ok flag.
    pub closed spec fn frameset_ok_flag(&self) -> bool {
        self.frameset_ok
    }

    /// The tokenizer state the parser asks for, if any.
    pub closed spec fn requested_state(&self) -> Option<State> {
        self.new_tokenizer_state
    }

    /// The tokenizer has emitted the end-of-file token.
    pub closed spec fn input_done(&self) -> bool {
        at_end(self.tokenizer@)
    }

    /// The scripting flag.
    pub closed spec fn scripting_flag(&self) -> bool {
        self.scripting
    }

    /// `after` is `self` with an HTML element with local name `tag`
    /// appended to the current node and pushed onto the stack; nothing else
    /// changes.
    pub closed spec fn element_inserted(&self, after: Parser, tag: Seq<char>) -> bool {
        &&& appended_element(self.nodes(), after.nodes(), self.stack().last() as int, tag)
        &&& after.stack() == self.stack().push(self.nodes().len() as NodeRef)
        &&& after == (Parser { arena: after.arena, open_elements: after.open_elements, ..*self })
    }

    /// The frameset-ok flag.
    pub open spec fn frameset_ok(&self) -> bool {
        self.frameset_ok_flag()
    }

    /// The list of active formatting elements holds an "a" element between
    /// the positions at which the "a" start tag looks.
    pub closed spec fn anchor_between(&self) -> bool {
        has_tagged_element_between(
            self.formatting(),
            &self.arena,
            places_low(self.formatting(), Position::End, Position::LastMarkerOrElseStart),
            places_high(self.formatting(), Position::End, Position::LastMarkerOrElseStart),
            "a"@,
        )
    }

    /// `after` is `self` with an HTML element with local name `tag`
    /// inserted and pushed onto the list of active formatting elements.
    pub closed spec fn formatting_inserted(&self, after: Parser, tag: Seq<char>) -> bool {
        exists|mid: Parser|
            self.element_inserted(mid, tag) && after == (Parser {
                active_formatting_elements: after.active_formatting_elements,
                ..mid
            }) && after.formatting() == self.formatting().push(
                ActiveFormattingElement::Element(self.nodes().len() as NodeRef),
            )
    }

    /// An element with local name `tag` is in the scope that `extra`
    /// extends.
    pub closed spec fn has_in_scope(&self, tag: Seq<char>, extra: Seq<Seq<char>>) -> bool {
        tag_in_scope(self.stack(), &self.arena, tag, extra)
    }

    /// The scope search for `tag` with `extra` has an answer.
    pub closed spec fn scope_known(&self, tag: Seq<char>, extra: Seq<Seq<char>>) -> bool {
        scope_decided(self.stack(), &self.arena, tag, extra)
    }

    /// `after` is `self` once implied end tags (except for `except`) are
    /// generated and elements are popped until an element with local name
    /// `tag` has been popped: the stack is cut below that element.
    pub closed spec fn tags_closed(&self, after: Parser, except: Option<Seq<char>>, tag: Seq<char>) -> bool {
        exists|k1: int, k: int|
            implied_end_tags_kept(self.stack(), &self.arena, except, k1) && is_last_tagged(
                self.stack().take(k1),
                &self.arena,
                tag,
                k,
            ) && after.stack() == self.stack().take(k) && after == (Parser {
                open_elements: after.open_elements,
                ..*self
            })
    }

    /// The current node has local name `tag` and is not in the list of
    /// active formatting elements: the adoption agency pops it at once.
    pub closed spec fn current_closes_at_once(&self, tag: Seq<char>) -> bool {
        &&& self.stack().len() > 0
        &&& tagged(&self.arena, self.stack().last(), tag)
        &&& !self.formatting().contains(ActiveFormattingElement::Element(self.stack().last()))
    }

    /// `r` is the formatting element of the adoption agency for `tag`: the
    /// last element entry with that local name after the last marker.
    pub closed spec fn formatting_element_for(&self, tag: Seq<char>, r: NodeRef) -> bool {
        exists|j: int|
            0 <= j < self.formatting().len() && #[trigger] self.formatting()[j] == ActiveFormattingElement::Element(
                r,
            ) && tagged(&self.arena, r, tag) && no_marker_or_tag_after(self.formatting(), &self.arena, j, tag)
    }

    /// What the adoption agency does with the formatting element `r`: where
    /// `r` is not on the stack, it leaves the list of active formatting
    /// elements; where it is not in scope, nothing changes; where no special
    /// element is above it, the stack is cut below it and it leaves the
    /// list; otherwise (a furthest block) the parser does not handle the
    /// token.
    pub closed spec fn adoption_outcome(&self, after: Parser, handled: bool, r: NodeRef) -> bool {
        let s = self.stack();
        let removed = self.formatting().remove(
            self.formatting().index_of_first(ActiveFormattingElement::Element(r)).unwrap(),
        );
        if !s.contains(r) {
            handled && after.formatting() == removed && after == (Parser {
                active_formatting_elements: after.active_formatting_elements,
                ..*self
            })
        } else if !node_in_scope(s, &self.arena, r) {
            handled && after == *self
        } else if forall|m: int|
            special_search_bound(s, r) < m < s.len() ==> !tagged_one_of(
                &self.arena,
                #[trigger] s[m],
                html_special_tags(),
            ) {
            handled && after.stack() == s.take(s.index_of_last(r).unwrap()) && after.formatting() == removed
                && after == (Parser {
                open_elements: after.open_elements,
                active_formatting_elements: after.active_formatting_elements,
                ..*self
            })
        } else {
            !handled
        }
    }

    /// `after` and `handled` are what the end tag of a block element named
    /// `tag` gives: where the scope search has an answer and no such element
    /// is in scope, the token is ignored; where one is, implied end tags are
    /// generated and elements are popped until one named `tag` is popped.
    pub closed spec fn end_block_done(&self, after: Parser, handled: bool, tag: Seq<char>) -> bool {
        &&& handled == (self.scope_known(tag, Seq::empty()) && (!self.has_in_scope(tag, Seq::empty())
            || self.close_succeeds(None, tag)))
        &&& handled ==> if self.has_in_scope(tag, Seq::empty()) {
            self.tags_closed(after, None, tag)
        } else {
            after == *self
        }
    }

    /// `after` and `handled` are what an "li" end tag gives: where the scope
    /// search has an answer and no li element is in list item scope, the
    /// token is ignored; where one is, implied end tags other than li are
    /// generated and elements are popped until an li element is popped.
    pub closed spec fn end_li_done(&self, after: Parser, handled: bool) -> bool {
        &&& handled == self.scope_known("li"@, seq!["ol"@, "ul"@])
        &&& handled ==> if self.has_in_scope("li"@, seq!["ol"@, "ul"@]) {
            self.tags_closed(after, Some("li"@), "li"@)
        } else {
            after == *self
        }
    }

    /// `after` and `handled` are what the "any other end tag" steps for
    /// `tag` give: the token is handled; where an entry is the one these
    /// steps close, the stack is cut below it, and otherwise nothing changes.
    pub closed spec fn other_end_done(&self, after: Parser, handled: bool, tag: Seq<char>) -> bool {
        &&& handled
        &&& forall|j: int|
            #[trigger] other_end_target(self.stack(), &self.arena, tag, j) ==> after.stack() == self.stack().take(
                j,
            ) && after == (Parser { open_elements: after.open_elements, ..*self })
        &&& (forall|j: int| !#[trigger] other_end_target(self.stack(), &self.arena, tag, j)) ==> after == *self
    }

    /// `after` and `handled` are what the adoption agency algorithm for
    /// `subject` gives: with an empty stack the token is not handled; a
    /// current node named `subject` that is not a formatting element is
    /// popped; with no formatting element for `subject` the steps for "any
    /// other end tag" run; otherwise `adoption_outcome` says what happens.
    pub closed spec fn adopted(&self, after: Parser, handled: bool, subject: Seq<char>) -> bool {
        &&& self.stack().len() == 0 ==> !handled
        &&& self.current_closes_at_once(subject) ==> handled && after.stack() == self.stack().drop_last()
            && after == (Parser { open_elements: after.open_elements, ..*self })
        &&& self.stack().len() > 0 && !self.current_closes_at_once(subject) ==> {
            &&& (forall|r: NodeRef| !self.formatting_element_for(subject, r)) ==> self.other_end_done(
                after,
                handled,
                subject,
            )
            &&& forall|r: NodeRef| #[trigger]
                self.formatting_element_for(subject, r) ==> self.adoption_outcome(after, handled, r)
        }
    }

    /// The steps of the "li" start tag meet an li element, walking the
    /// stack down from the current node, before an element that stops them.
    pub closed spec fn li_start_meets_li(&self) -> bool {
        exists|j: int|
            0 <= j < self.stack().len() && tagged(&self.arena, #[trigger] self.stack()[j], "li"@) && forall|k: int|
                j < k < self.stack().len() ==> !stops_li_search(&self.arena, #[trigger] self.stack()[k])
    }

    /// The stack of open elements holds an element with local name `tag`.
    pub closed spec fn stack_holds(&self, tag: Seq<char>) -> bool {
        exists|j: int| 0 <= j < self.stack().len() && tagged(&self.arena, #[trigger] self.stack()[j], tag)
    }

    /// `after` and `handled` are what the start tag of a block element
    /// named `tag` gives: a p element in button scope is closed, then an
    /// element named `tag` is inserted.
    pub closed spec fn block_started(&self, after: Parser, handled: bool, tag: Seq<char>) -> bool {
        &&& handled <==> self.scope_known("p"@, seq!["button"@]) && exists|mid: Parser|
            #![trigger mid.stack()]
            (if self.has_in_scope("p"@, seq!["button"@]) {
                self.tags_closed(mid, Some("p"@), "p"@)
            } else {
                mid == *self
            }) && mid.stack().len() > 0
        &&& handled ==> exists|mid: Parser|
            (if self.has_in_scope("p"@, seq!["button"@]) {
                self.tags_closed(mid, Some("p"@), "p"@)
            } else {
                mid == *self
            }) && mid.element_inserted(after, tag)
    }

    /// Once implied end tags (except for `except`) are generated, the stack
    /// still holds an element with local name `tag`: closing such elements
    /// succeeds.
    pub closed spec fn close_succeeds(&self, except: Option<Seq<char>>, tag: Seq<char>) -> bool {
        exists|k1: int, j: int|
            #![trigger implied_end_tags_kept(self.stack(), &self.arena, except, k1), self.stack()[j]]
            implied_end_tags_kept(self.stack(), &self.arena, except, k1) && 0 <= j < k1 && tagged(
                &self.arena,
                self.stack()[j],
                tag,
            )
    }

    /// A "form" start tag is ignored: the form element pointer is set and
    /// the stack holds no template element.
    pub closed spec fn form_start_ignored(&self) -> bool {
        self.form() is Some && !self.stack_holds("template"@)
    }

    /// `mid`, `ins` and `after` are the steps of a "form" start tag named
    /// `tag`: a p element in button scope closed, the element inserted, and
    /// the form element pointer set to it where the stack holds no template
    /// element.
    pub closed spec fn form_inserted(&self, mid: Parser, ins: Parser, after: Parser, tag: Seq<char>) -> bool {
        &&& if self.has_in_scope("p"@, seq!["button"@]) {
            self.tags_closed(mid, Some("p"@), "p"@)
        } else {
            mid == *self
        }
        &&& mid.element_inserted(ins, tag)
        &&& after == if !ins.stack_holds("template"@) {
            Parser { form_element: Some(ins.stack().last()), ..ins }
        } else {
            ins
        }
    }

    /// `after` and `handled` are what a "form" start tag that is not
    /// ignored gives.
    pub closed spec fn form_started(&self, after: Parser, handled: bool, tag: Seq<char>) -> bool {
        &&& !self.scope_known("p"@, seq!["button"@]) ==> !handled
        &&& handled ==> exists|mid: Parser, ins: Parser| self.form_inserted(mid, ins, after, tag)
    }

    /// `after` and `handled` are what a "form" end tag gives where the stack
    /// holds no template element: the form element pointer is cleared; where
    /// it was set to an element that is not in scope, implied end tags are
    /// generated and that element leaves the stack.
    pub closed spec fn form_ended(&self, after: Parser, handled: bool) -> bool {
        let cleared = Parser { form_element: None, ..*self };
        match self.form() {
            None => handled && after == cleared,
            Some(f) => (handled == (node_scope_decided(self.stack(), &self.arena, f) && (!node_in_scope(
                self.stack(),
                &self.arena,
                f,
            ) || exists|k: int| implied_end_tags_kept(self.stack(), &self.arena, None, k) && k > 0))) && (handled
                ==> if !node_in_scope(self.stack(), &self.arena, f) {
                after == cleared
            } else {
                exists|k: int|
                    implied_end_tags_kept(self.stack(), &self.arena, None, k) && k > 0 && after.stack()
                        == remove_first(self.stack().take(k), f) && after == (Parser {
                        open_elements: after.open_elements,
                        ..cleared
                    })
            }),
        }
    }

    /// What the rules of `mode` do with `t`: the parser goes from `self`
    /// to `after`, and `handled` says whether it handles the token.
    pub closed spec fn processed_by(&self, mode: InsertionMode, t: TokenModel, after: Parser, handled: bool) -> bool
        decreases rank(mode, t), 1nat,
    {
        match mode {
            InsertionMode::Initial => self.initial_step(t, after, handled),
            InsertionMode::BeforeHtml => self.before_html_step(t, after, handled),
            InsertionMode::BeforeHead => self.before_head_step(t, after, handled),
            InsertionMode::InHead => self.in_head_step(t, after, handled),
            InsertionMode::AfterHead => self.after_head_step(t, after, handled),
            InsertionMode::InBody => self.in_body_step(t, after, handled),
            InsertionMode::AfterBody => self.after_body_step(t, after, handled),
            InsertionMode::AfterAfterBody => self.after_after_body_step(t, after, handled),
            InsertionMode::Text => self.text_step(t, after, handled),
            _ => !handled,
        }
    }

    /// What the rules of the current insertion mode do with `t`.
    pub closed spec fn processed(&self, t: TokenModel, after: Parser, handled: bool) -> bool {
        self.processed_by(self.mode(), t, after, handled)
    }

    /// The "initial" insertion mode: whitespace is ignored, a doctype is
    /// appended to the document.
    pub closed spec fn initial_step(&self, t: TokenModel, after: Parser, handled: bool) -> bool {
        if is_whitespace_token(t) {
            handled && after == *self
        } else if t is Comment {
            handled && appended_comment(self.nodes(), after.nodes(), 0, t->Comment_data) && after == (Parser {
                arena: after.arena,
                ..*self
            })
        } else if t is Doctype {
            handled && appended_doctype(self.nodes(), after.nodes(), 0, t) && after == (Parser {
                arena: after.arena,
                insertion_mode: InsertionMode::BeforeHtml,
                ..*self
            })
        } else {
            !handled
        }
    }

    /// The "before html" insertion mode: an "html" start tag makes the html
    /// element, a child of the document.
    pub closed spec fn before_html_step(&self, t: TokenModel, after: Parser, handled: bool) -> bool {
        if start_in(t, seq!["html"@]) {
            &&& handled
            &&& appended_element(self.nodes(), after.nodes(), 0, "html"@)
            &&& after.stack() == self.stack().push(self.nodes().len() as NodeRef)
            &&& after == (Parser {
                arena: after.arena,
                open_elements: after.open_elements,
                insertion_mode: InsertionMode::BeforeHead,
                ..*self
            })
        } else {
            !handled
        }
    }

    /// The "before head" insertion mode: whitespace is ignored; otherwise a
    /// head element is inserted and the token is reprocessed "in head".
    pub closed spec fn before_head_step(&self, t: TokenModel, after: Parser, handled: bool) -> bool
        decreases rank(InsertionMode::BeforeHead, t), 0nat,
    {
        if is_whitespace_token(t) {
            handled && after == *self
        } else if t is Comment || t is Doctype || start_in(t, seq!["html"@, "head"@]) || (t is EndTag && !end_in(
            t,
            seq!["head"@, "body"@, "html"@, "br"@],
        )) {
            !handled
        } else if self.stack().len() == 0 {
            !handled
        } else {
            exists|mid: Parser|
                self.element_inserted(mid, "head"@) && (Parser {
                    head_element: Some(self.nodes().len() as NodeRef),
                    insertion_mode: InsertionMode::InHead,
                    ..mid
                }).processed_by(InsertionMode::InHead, t, after, handled)
        }
    }

    /// The "in head" insertion mode.
    pub closed spec fn in_head_step(&self, t: TokenModel, after: Parser, handled: bool) -> bool
        decreases rank(InsertionMode::InHead, t), 0nat,
    {
        if is_whitespace_token(t) || t is Comment {
            !handled
        } else if t is Doctype {
            handled && after == *self
        } else if start_in(t, seq!["html"@]) {
            if sent_to_head(t) {
                !handled
            } else {
                self.processed_by(InsertionMode::InBody, t, after, handled)
            }
        } else if start_in(t, head_void_tags()) {
            (handled <==> self.stack().len() > 0) && (handled ==> {
                &&& appended_element(self.nodes(), after.nodes(), self.stack().last() as int, t->StartTag_name)
                &&& after.stack() == self.stack()
                &&& after == (Parser { arena: after.arena, open_elements: after.open_elements, ..*self })
            })
        } else if start_in(t, seq!["title"@]) {
            self.generic_started(after, handled, t->StartTag_name, State::RcData)
        } else if start_in(t, seq!["noframes"@, "style"@]) || (self.scripting_flag() && start_in(
            t,
            seq!["noscript"@],
        )) {
            self.generic_started(after, handled, t->StartTag_name, State::RawText)
        } else if start_in(t, seq!["noscript"@]) {
            (handled <==> self.stack().len() > 0) && (handled ==> exists|mid: Parser|
                self.element_inserted(mid, "noscript"@) && after == (Parser {
                    insertion_mode: InsertionMode::InHeadNoscript,
                    ..mid
                }))
        } else if start_in(t, seq!["script"@, "template"@]) || end_in(t, seq!["template"@]) {
            !handled
        } else if end_in(t, seq!["head"@]) {
            handled && after.stack() == popped(self.stack()) && after == (Parser {
                open_elements: after.open_elements,
                insertion_mode: InsertionMode::AfterHead,
                ..*self
            })
        } else if start_in(t, seq!["head"@]) || (t is EndTag && !end_in(t, seq!["body"@, "html"@, "br"@])) {
            handled && after == *self
        } else if sent_to_head(t) {
            !handled
        } else {
            exists|mid: Parser|
                mid.stack() == popped(self.stack()) && mid == (Parser {
                    open_elements: mid.open_elements,
                    insertion_mode: InsertionMode::AfterHead,
                    ..*self
                }) && mid.processed_by(InsertionMode::AfterHead, t, after, handled)
        }
    }

    /// The generic raw text or RCDATA element parsing algorithm for a start
    /// tag named `tag`: the element is inserted, the tokenizer is asked to
    /// switch to `state`, and the parser goes to the "text" mode, to come
    /// back to the current one.
    pub closed spec fn generic_started(&self, after: Parser, handled: bool, tag: Seq<char>, state: State) -> bool {
        if self.mode() == InsertionMode::Text {
            !handled
        } else {
            (handled <==> self.stack().len() > 0) && (handled ==> exists|mid: Parser|
                self.element_inserted(mid, tag) && after == (Parser {
                    new_tokenizer_state: Some(state),
                    original_insertion_mode: Some(self.mode()),
                    insertion_mode: InsertionMode::Text,
                    ..mid
                }))
        }
    }

    /// The "after head" insertion mode: a body element is inserted and the
    /// token is reprocessed "in body"; the rest is not handled.
    pub closed spec fn after_head_step(&self, t: TokenModel, after: Parser, handled: bool) -> bool
        decreases rank(InsertionMode::AfterHead, t), 0nat,
    {
        if is_whitespace_token(t) || t is Comment || t is Doctype || start_in(t, after_head_unsupported_tags())
            || end_in(t, seq!["template"@, "body"@, "html"@, "br"@]) {
            !handled
        } else if self.stack().len() == 0 {
            !handled
        } else {
            exists|mid: Parser|
                self.element_inserted(mid, "body"@) && (Parser {
                    insertion_mode: InsertionMode::InBody,
                    ..mid
                }).processed_by(InsertionMode::InBody, t, after, handled)
        }
    }

    /// The "text" insertion mode: the current node is popped and the
    /// original insertion mode comes back; the end of the file is then
    /// reprocessed.
    pub closed spec fn text_step(&self, t: TokenModel, after: Parser, handled: bool) -> bool
        decreases rank(InsertionMode::Text, t), 0nat,
    {
        if t is Character || end_in(t, seq!["script"@]) {
            !handled
        } else {
            match self.original_mode() {
                None => !handled,
                Some(o) => if t is EndOfFile {
                    if o == InsertionMode::Text {
                        !handled
                    } else {
                        exists|mid: Parser|
                            mid.stack() == popped(self.stack()) && mid == (Parser {
                                open_elements: mid.open_elements,
                                insertion_mode: o,
                                ..*self
                            }) && mid.processed_by(o, t, after, handled)
                    }
                } else {
                    handled && after.stack() == popped(self.stack()) && after == (Parser {
                        open_elements: after.open_elements,
                        insertion_mode: o,
                        ..*self
                    })
                },
            }
        }
    }

    /// The "after body" insertion mode.
    pub closed spec fn after_body_step(&self, t: TokenModel, after: Parser, handled: bool) -> bool {
        if is_whitespace_token(t) || start_in(t, seq!["html"@]) {
            !handled
        } else if t is Comment {
            (handled <==> self.stack().len() > 0) && (handled ==> appended_comment(
                self.nodes(),
                after.nodes(),
                self.stack()[0] as int,
                t->Comment_data,
            ) && after == (Parser { arena: after.arena, ..*self }))
        } else if t is Doctype {
            handled && after == *self
        } else if t is EndOfFile {
            handled && after.stack().len() == 0 && after == (Parser { open_elements: after.open_elements, ..*self })
        } else if end_in(t, seq!["html"@]) {
            handled && after == (Parser { insertion_mode: InsertionMode::AfterAfterBody, ..*self })
        } else {
            handled && after == (Parser { insertion_mode: InsertionMode::InBody, ..*self })
        }
    }

    /// The "after after body" insertion mode.
    pub closed spec fn after_after_body_step(&self, t: TokenModel, after: Parser, handled: bool) -> bool {
        if t is Doctype {
            handled && after == *self
        } else if is_whitespace_token(t) || start_in(t, seq!["html"@]) {
            !handled
        } else if t is Comment {
            handled && appended_comment(self.nodes(), after.nodes(), 0, t->Comment_data) && after == (Parser {
                arena: after.arena,
                ..*self
            })
        } else if t is EndOfFile {
            handled && after.stack().len() == 0 && after == (Parser { open_elements: after.open_elements, ..*self })
        } else {
            handled && after == (Parser { insertion_mode: InsertionMode::InBody, ..*self })
        }
    }

    /// The "in body" insertion mode, rule by rule.
    pub closed spec fn in_body_step(&self, t: TokenModel, after: Parser, handled: bool) -> bool
        decreases rank(InsertionMode::InBody, t), 0nat,
    {
        match body_rule(t, self.scripting_flag()) {
            BodyRule::Nul | BodyRule::Ignored => handled && after == *self,
            BodyRule::NotHandled => !handled,
            BodyRule::HeadRules => if sent_to_head(t) && !sent_to_body(t) {
                self.processed_by(InsertionMode::InHead, t, after, handled)
            } else {
                !handled
            },
            BodyRule::EndOfFile => handled && after.stack().len() == 0 && after == (Parser {
                open_elements: after.open_elements,
                ..*self
            }),
            BodyRule::EndBodyOrHtml => (handled <==> scope_decided(self.stack(), &self.arena, "body"@, Seq::empty()))
                && (handled ==> if tag_in_scope(self.stack(), &self.arena, "body"@, Seq::empty()) {
                after == (Parser {
                    insertion_mode: if end_in(t, seq!["html"@]) {
                        InsertionMode::AfterAfterBody
                    } else {
                        InsertionMode::AfterBody
                    },
                    ..*self
                })
            } else {
                after == *self
            }),
            BodyRule::Anchor => (handled <==> self.stack().len() > 0 && !self.anchor_between()) && (handled
                ==> self.formatting_inserted(after, "a"@)),
            BodyRule::Formatting => (handled <==> self.stack().len() > 0) && (handled ==> self.formatting_inserted(
                after,
                t->StartTag_name,
            )),
            BodyRule::EndFormatting => after.nodes() == self.nodes() && self.adopted(after, handled, t->EndTag_name),
            BodyRule::Table => (handled <==> self.stack().len() > 0) && (handled ==> exists|mid: Parser|
                self.element_inserted(mid, "table"@) && after == (Parser {
                    insertion_mode: InsertionMode::InTable,
                    frameset_ok: false,
                    ..mid
                })),
            BodyRule::Void => (handled <==> self.stack().len() > 0) && (handled ==> {
                &&& appended_element(self.nodes(), after.nodes(), self.stack().last() as int, t->StartTag_name)
                &&& after.stack() == self.stack()
                &&& after == (Parser {
                    arena: after.arena,
                    open_elements: after.open_elements,
                    frameset_ok: after.frameset_ok,
                    ..*self
                })
                &&& !start_in(t, seq!["input"@]) ==> !after.frameset_ok()
            }),
            BodyRule::OtherStart => (handled <==> self.stack().len() > 0) && (handled ==> self.element_inserted(
                after,
                t->StartTag_name,
            )),
            BodyRule::OtherEnd => self.other_end_done(after, handled, t->EndTag_name),
            BodyRule::Block => self.block_started(after, handled, t->StartTag_name),
            BodyRule::Form => if self.form_start_ignored() {
                handled && after == *self
            } else {
                self.form_started(after, handled, t->StartTag_name)
            },
            BodyRule::ListItem => if self.li_start_meets_li() {
                exists|mid: Parser|
                    (Parser { frameset_ok: false, ..*self }).tags_closed(mid, Some("li"@), "li"@)
                        && mid.block_started(after, handled, t->StartTag_name)
            } else {
                (Parser { frameset_ok: false, ..*self }).block_started(after, handled, t->StartTag_name)
            },
            BodyRule::EndForm => if self.stack_holds("template"@) {
                !handled
            } else {
                self.form_ended(after, handled)
            },
            BodyRule::EndBlock => self.end_block_done(after, handled, t->EndTag_name),
            BodyRule::EndParagraph => (handled == (self.scope_known("p"@, seq!["button"@]) && (self.has_in_scope(
                "p"@,
                seq!["button"@],
            ) || self.stack().len() > 0))) && (handled
                ==> if self.has_in_scope("p"@, seq!["button"@]) {
                self.tags_closed(after, Some("p"@), "p"@)
            } else {
                exists|mid: Parser| self.element_inserted(mid, "p"@) && mid.tags_closed(after, Some("p"@), "p"@)
            }),
            BodyRule::EndListItem => self.end_li_done(after, handled),
        }
    }

    /// Node `r` is an element in the HTML namespace.
    pub closed spec fn html_element(&self, r: NodeRef) -> bool {
        self.nodes()[r as int].node_data() matches NodeData::Element { namespace, .. } && namespace == Some(
            Namespace::Html,
        )
    }

    /// The token is processed by the rules of HTML content: the stack of
    /// open elements is empty, the current node is an HTML element, or the
    /// token is the end of the file.
    pub closed spec fn in_html_content(&self, t: TokenModel) -> bool {
        self.stack().len() == 0 || self.html_element(self.stack().last()) || t is EndOfFile
    }

    /// Elements are popped until the current node is an HTML element, then
    /// the token is processed by the rules of the current insertion mode;
    /// with no HTML element on the stack the token is not handled.
    pub closed spec fn popped_to_html(&self, t: TokenModel, after: Parser, handled: bool) -> bool {
        if forall|j: int| 0 <= j < self.stack().len() ==> !self.html_element(#[trigger] self.stack()[j]) {
            !handled
        } else {
            exists|mid: Parser, k: int|
                0 < k <= self.stack().len() && self.html_element(self.stack()[k - 1]) && (forall|j: int|
                    k <= j < self.stack().len() ==> !self.html_element(#[trigger] self.stack()[j]))
                    && mid.stack() == self.stack().take(k) && mid == (Parser {
                    open_elements: mid.open_elements,
                    ..*self
                }) && mid.processed(t, after, handled)
        }
    }

    /// The rules for tokens in foreign content.
    pub closed spec fn foreign_step(&self, t: TokenModel, after: Parser, handled: bool) -> bool {
        let s = self.stack();
        if t is Character || t is Comment {
            !handled
        } else if t is Doctype {
            handled && after == *self
        } else if breaks_out_spec(t) || end_in(t, seq!["br"@, "P"@]) {
            self.popped_to_html(t, after, handled)
        } else if t is StartTag {
            (handled <==> s.len() > 0) && (handled ==> if t->StartTag_self_closing && t->StartTag_name
                != "script"@ {
                exists|mid: Parser|
                    self.element_inserted(mid, t->StartTag_name) && after.stack() == s && after == (Parser {
                        open_elements: after.open_elements,
                        ..mid
                    })
            } else {
                self.element_inserted(after, t->StartTag_name)
            })
        } else if end_in(t, seq!["script"@]) || !(t is EndTag) || s.len() == 0 {
            !handled
        } else if s[0] == s.last() {
            handled && after == *self
        } else if ascii_lower_equal(self.nodes()[s.last() as int].node_data()->Element_name.local@, t->EndTag_name) {
            handled && after.stack() == s.drop_last() && after == (Parser {
                open_elements: after.open_elements,
                ..*self
            })
        } else {
            !handled
        }
    }

    /// The parser processes `t` by the rules of HTML content or of foreign
    /// content, whichever applies.
    pub closed spec fn dispatched(&self, t: TokenModel, after: Parser, handled: bool) -> bool {
        if self.in_html_content(t) {
            self.processed(t, after, handled)
        } else {
            self.foreign_step(t, after, handled)
        }
    }

    /// Closing elements named `tag`, with `tag` excepted from the implied
    /// end tags, succeeds where such an element is in scope.
    proof fn lemma_in_scope_closes(&self, tag: Seq<char>, extra: Seq<Seq<char>>)
        requires
            self.has_in_scope(tag, extra),
        ensures
            forall|k1: int|
                implied_end_tags_kept(self.stack(), &self.arena, Some(tag), k1) ==> self.close_succeeds(
                    Some(tag),
                    tag,
                ),
    {
        let j = choose|j: int|
            0 <= j < self.stack().len() && tagged(&self.arena, #[trigger] self.stack()[j], tag) && forall|k: int|
                j < k < self.stack().len() ==> !crate::tree_construction::bounds_scope(
                    &self.arena,
                    #[trigger] self.stack()[k],
                    extra,
                );
        assert forall|k1: int| implied_end_tags_kept(self.stack(), &self.arena, Some(tag), k1) implies self.close_succeeds(
            Some(tag),
            tag,
        ) by {
            if j >= k1 {
                assert(crate::tree_construction::stops_implied_end_tags(&self.arena, self.stack()[j], Some(tag)));
            }
            assert(implied_end_tags_kept(self.stack(), &self.arena, Some(tag), k1) && self.stack()[j]
                == self.stack()[j]);
        }
    }

    /// Closing elements named `tag`, with `tag` excepted, succeeds where the
    /// stack holds an element named `tag`.
    proof fn lemma_tagged_closes(&self, tag: Seq<char>, j: int)
        requires
            0 <= j < self.stack().len(),
            tagged(&self.arena, self.stack()[j], tag),
        ensures
            forall|k1: int|
                implied_end_tags_kept(self.stack(), &self.arena, Some(tag), k1) ==> self.close_succeeds(
                    Some(tag),
                    tag,
                ),
    {
        assert forall|k1: int| implied_end_tags_kept(self.stack(), &self.arena, Some(tag), k1) implies self.close_succeeds(
            Some(tag),
            tag,
        ) by {
            if j >= k1 {
                assert(crate::tree_construction::stops_implied_end_tags(&self.arena, self.stack()[j], Some(tag)));
            }
            assert(implied_end_tags_kept(self.stack(), &self.arena, Some(tag), k1) && self.stack()[j]
                == self.stack()[j]);
        }
    }

    /// Closing elements named `tag`, with `tag` excepted, succeeds where the
    /// current node is named `tag`.
    proof fn lemma_current_closes(&self, tag: Seq<char>)
        requires
            self.stack().len() > 0,
            tagged(&self.arena, self.stack().last(), tag),
        ensures
            forall|k1: int|
                implied_end_tags_kept(self.stack(), &self.arena, Some(tag), k1) ==> self.close_succeeds(
                    Some(tag),
                    tag,
                ),
    {
        let j = self.stack().len() - 1;
        assert forall|k1: int| implied_end_tags_kept(self.stack(), &self.arena, Some(tag), k1) implies self.close_succeeds(
            Some(tag),
            tag,
        ) by {
            if j >= k1 {
                assert(crate::tree_construction::stops_implied_end_tags(&self.arena, self.stack()[j], Some(tag)));
            }
            assert(implied_end_tags_kept(self.stack(), &self.arena, Some(tag), k1) && self.stack()[j]
                == self.stack()[j]);
        }
    }

    /// Closing elements leaves one stack only.
    proof fn lemma_tags_closed_unique(&self, a: Parser, b: Parser, except: Option<Seq<char>>, tag: Seq<char>)
        requires
            self.tags_closed(a, except, tag),
            self.tags_closed(b, except, tag),
        ensures
            a.stack() == b.stack(),
    {
        let (ka1, ka) = choose|k1: int, k: int|
            implied_end_tags_kept(self.stack(), &self.arena, except, k1) && is_last_tagged(
                self.stack().take(k1),
                &self.arena,
                tag,
                k,
            ) && a.stack() == self.stack().take(k) && a == (Parser { open_elements: a.open_elements, ..*self });
        let (kb1, kb) = choose|k1: int, k: int|
            implied_end_tags_kept(self.stack(), &self.arena, except, k1) && is_last_tagged(
                self.stack().take(k1),
                &self.arena,
                tag,
                k,
            ) && b.stack() == self.stack().take(k) && b == (Parser { open_elements: b.open_elements, ..*self });
        lemma_kept_unique(self.stack(), &self.arena, except, ka1, kb1);
        let t = self.stack().take(ka1);
        if ka < kb {
            assert(tagged(&self.arena, t[kb], tag));
        }
        if kb < ka {
            assert(tagged(&self.arena, t[ka], tag));
        }
    }

    /// Node `r` is an element of the DOM.
    pub open spec fn is_element(&self, r: NodeRef) -> bool {
        r < self.nodes().len() && self.nodes()[r as int].node_data() is Element
    }

    /// The invariant: the DOM is a well-formed tree store whose nodes all
    /// belong to the document node, the first node; the stack, the list of active
    /// formatting elements and the element pointers refer to elements of
    /// it; the original insertion mode is not "text".
    pub closed spec fn wf(&self) -> bool {
        let ns = self.arena.nodes();
        &&& self.arena.wf()
        &&& self.document == 0
        &&& self.document < ns.len()
        &&& ns[self.document as int].node_data() is Document
        &&& ns[self.document as int].doc_link() is None
        &&& forall|i: int|
            0 <= i < ns.len() && i != self.document ==> (#[trigger] ns[i]).doc_link() == Some(
                self.document,
            )
        &&& forall|i: int| 0 <= i < self.open_elements@.len() ==> self.is_element(#[trigger] self.open_elements@[i])
        &&& forall|i: int|
            0 <= i < self.active_formatting_elements@.len() ==> (
            #[trigger] self.active_formatting_elements@[i] matches ActiveFormattingElement::Element(r)
                ==> self.is_element(r))
        &&& (self.head_element matches Some(h) ==> self.is_element(h))
        &&& (self.form_element matches Some(f) ==> self.is_element(f))
        &&& self.original_insertion_mode != Some(InsertionMode::Text)
    }

    /// A parser for `input`, in the "initial" insertion mode, with a DOM
    /// holding only the document node.
    pub fn new(input: &str) -> (res: Self)
        ensures
            res.wf(),
            res.nodes().len() == 1,
            res.document_spec() == 0,
            res.nodes()[0].node_data() is Document,
            res.mode() == InsertionMode::Initial,
            res.original_mode() is None,
            res.stack() == Seq::<NodeRef>::empty(),
            res.formatting() == Seq::<ActiveFormattingElement>::empty(),
            res.head() is None,
            res.form() is None,
            !res.frameset_ok_flag(),
            res.requested_state() is None,
            !res.input_done(),
    {
        let mut arena = Arena::new();
        let document = arena.allocate(Node::new(None, NodeData::Document));
        let parser = Parser {
            arena,
            tokenizer: Tokenizer::new(input),
            new_tokenizer_state: None,
            document,
            insertion_mode: InsertionMode::Initial,
            original_insertion_mode: None,
            open_elements: StackOfOpenElements::new(),
            active_formatting_elements: ListOfActiveFormattingElements::new(),
            head_element: None,
            form_element: None,
            scripting: false,
            frameset_ok: false,
        };
        parser
    }

    /// The DOM built so far.
    pub fn arena(&self) -> (res: &Arena)
        ensures
            res.nodes() == self.nodes(),
    {
        &self.arena
    }

    /// The document node.
    pub fn document(&self) -> (res: NodeRef)
        ensures
            res == self.document_spec(),
    {
        self.document
    }

    /// The current node: the bottommost node of the stack of open elements.
    pub(crate) fn current_node(&self) -> (res: Option<NodeRef>)
        ensures
            res == (if self.stack().len() > 0 {
                Some(self.stack().last())
            } else {
                None::<NodeRef>
            }),
    {
        self.open_elements.current_node()
    }

    fn switch_insertion_mode_to(&mut self, insertion_mode: InsertionMode)
        ensures
            *final(self) == (Parser { insertion_mode, ..*old(self) }),
    {
        self.insertion_mode = insertion_mode;
    }

    /// Whether the nodes of the stack, of the list of active formatting
    /// elements and the element pointers are elements of `ns`.
    proof fn lemma_refs_stay(&self, ns: Seq<Node>)
        requires
            self.wf(),
            ns.len() >= self.nodes().len(),
            forall|i: int| 0 <= i < self.nodes().len() ==> (#[trigger] ns[i]).node_data() == self.nodes()[i].node_data(),
        ensures
            forall|i: int| 0 <= i < self.stack().len() ==> (#[trigger] self.stack()[i]) < ns.len()
                && ns[self.stack()[i] as int].node_data() is Element,
            forall|i: int|
                0 <= i < self.formatting().len() ==> (#[trigger] self.formatting()[i] matches ActiveFormattingElement::Element(r)
                    ==> r < ns.len() && ns[r as int].node_data() is Element),
            self.head() matches Some(h) ==> h < ns.len() && ns[h as int].node_data() is Element,
            self.form() matches Some(f) ==> f < ns.len() && ns[f as int].node_data() is Element,
    {
        assert forall|i: int| 0 <= i < self.stack().len() implies (#[trigger] self.stack()[i]) < ns.len()
            && ns[self.stack()[i] as int].node_data() is Element by {
            assert(self.is_element(self.open_elements@[i]));
        }
        assert forall|i: int|
            0 <= i < self.formatting().len() implies (#[trigger] self.formatting()[i] matches ActiveFormattingElement::Element(r)
                ==> r < ns.len() && ns[r as int].node_data() is Element) by {
            if let ActiveFormattingElement::Element(r) = self.active_formatting_elements@[i] {
                assert(self.is_element(r));
            }
        }
    }

    /// The stack and the list of active formatting elements hold nodes of
    /// the DOM.
    proof fn lemma_valid_refs(&self)
        requires
            self.wf(),
        ensures
            self.open_elements.valid_in(&self.arena),
            self.active_formatting_elements.valid_in(&self.arena),
    {
        assert forall|i: int| 0 <= i < self.open_elements@.len() implies self.arena.valid(
            #[trigger] self.open_elements@[i],
        ) by {
            assert(self.is_element(self.open_elements@[i]));
        }
        assert forall|i: int| 0 <= i < self.active_formatting_elements@.len() implies (
        #[trigger] self.active_formatting_elements@[i] matches ActiveFormattingElement::Element(r)
            ==> self.arena.valid(r)) by {
            if let ActiveFormattingElement::Element(r) = self.active_formatting_elements@[i] {
                assert(self.is_element(r));
            }
        }
    }

    /// Allocates a new detached node with data `data` in the document.
    fn create_node(&mut self, data: NodeData) -> (res: NodeRef)
        requires
            old(self).wf(),
            !(data is Document),
        ensures
            dom_grows(old(self).nodes(), final(self).nodes()),
            final(self).wf(),
            res == old(self).nodes().len(),
            final(self).nodes().len() == old(self).nodes().len() + 1,
            final(self).nodes().drop_last() == old(self).nodes(),
            final(self).nodes()[res as int].node_data() == data,
            final(self).nodes()[res as int].is_detached(),
            *final(self) == (Parser { arena: final(self).arena, ..*old(self) }),
    {
        let node = self.arena.allocate(Node::new(Some(self.document), data));
        proof {
            let ns = self.arena.nodes();
            assert(ns.drop_last() =~= old(self).nodes());
            assert forall|i: int| 0 <= i < ns.len() && i != self.document implies (
            #[trigger] ns[i]).doc_link() == Some(self.document) by {
                if i < old(self).nodes().len() {
                    assert(ns[i] == old(self).nodes()[i]);
                }
            }
            old(self).lemma_refs_stay(ns);
        }
        node
    }

    /// Appends the detached node `node` to the children of `parent`.
    fn attach(&mut self, parent: NodeRef, node: NodeRef)
        requires
            old(self).wf(),
            parent < old(self).nodes().len(),
            node < old(self).nodes().len(),
            node != old(self).document_spec(),
            old(self).nodes()[node as int].is_detached(),
            !(old(self).nodes()[node as int].node_data() is DocumentFragment),
        ensures
            dom_grows(old(self).nodes(), final(self).nodes()),
            final(self).wf(),
            attached(old(self).nodes(), final(self).nodes(), parent as int, node as int),
            *final(self) == (Parser { arena: final(self).arena, ..*old(self) }),
    {
        let ghost ms = self.arena.nodes();
        proof {
            assert(ms[node as int].doc_link() == Some(self.document));
            assert(doc_of(ms, parent as int) == self.document);
            assert(doc_of(ms, self.document as int) == self.document);
            assert(doc_of(ms, node as int) == self.document);
        }
        Node::append(&mut self.arena, parent, node);
        proof {
            let ns = self.arena.nodes();
            assert(crate::dom::node::inserted_at(
                ms,
                ns,
                parent as int,
                node as int,
                ms[parent as int].child_list().len() as int,
            ));
            assert(ms[parent as int].child_list().insert(
                ms[parent as int].child_list().len() as int,
                node,
            ) =~= ms[parent as int].child_list().push(node));
            assert forall|i: int| 0 <= i < ns.len() && i != self.document implies (
            #[trigger] ns[i]).doc_link() == Some(self.document) by {
                assert(ms[i].doc_link() == Some(self.document));
            }
            old(self).lemma_refs_stay(ns);
        }
    }

    /// Appends a new node with data `data` to the children of `parent`.
    fn append_new_node(&mut self, parent: NodeRef, data: NodeData) -> (res: NodeRef)
        requires
            old(self).wf(),
            parent < old(self).nodes().len(),
            !(data is DocumentFragment),
            !(data is Document),
        ensures
            dom_grows(old(self).nodes(), final(self).nodes()),
            final(self).wf(),
            res == old(self).nodes().len(),
            appended(old(self).nodes(), final(self).nodes(), parent as int, data),
            *final(self) == (Parser { arena: final(self).arena, ..*old(self) }),
    {
        let node = self.create_node(data);
        self.attach(parent, node);
        node
    }

    /// Creates an HTML element with local name `tag` for the current node,
    /// appends it to the current node where that is allowed, and pushes it
    /// onto the stack of open elements. There must be a current node.
    fn insert_html_element_for_start_tag(&mut self, tag: &str) -> (res: Option<NodeRef>)
        requires
            old(self).wf(),
        ensures
            dom_grows(old(self).nodes(), final(self).nodes()),
            old(self).stack().len() == 0 ==> res is None && *final(self) == *old(self),
            old(self).stack().len() > 0 ==> {
                &&& res == Some(old(self).nodes().len() as NodeRef)
                &&& final(self).wf()
                &&& appended_element(old(self).nodes(), final(self).nodes(), old(self).stack().last() as int, tag@)
                &&& final(self).stack() == old(self).stack().push(res.unwrap())
                &&& *final(self) == (Parser {
                    arena: final(self).arena,
                    open_elements: final(self).open_elements,
                    ..*old(self)
                })
            },
    {
        let parent = match self.open_elements.current_node() {
            Some(p) => p,
            None => return None,
        };
        proof {
            assert(self.is_element(self.open_elements@[self.open_elements@.len() - 1]));
        }
        let element = self.create_node(
            NodeData::Element {
                name: QualifiedName::new(owned(tag)),
                namespace: Some(Namespace::Html),
                attributes: Vec::new(),
            },
        );
        let ghost ms = self.arena.nodes();
        proof {
            assert(ms[parent as int] == old(self).nodes()[parent as int]);
            assert(crate::dom::node::pre_insertion_error(ms, parent as int, element as int, None) is None);
        }
        if Node::ensure_pre_insertion_validity(&self.arena, parent, element, None).is_ok() {
            self.attach(parent, element);
        }
        self.open_elements.push(element);
        proof {
            let ns = self.arena.nodes();
            assert(self.is_element(element));
            assert forall|i: int| 0 <= i < old(self).nodes().len() implies (#[trigger] ns[i]).node_data()
                == old(self).nodes()[i].node_data() by {
                assert(ms[i] == old(self).nodes()[i]);
            }
            assert forall|i: int| 0 <= i < self.open_elements@.len() implies self.is_element(
                #[trigger] self.open_elements@[i],
            ) by {
                if i < old(self).open_elements@.len() {
                    assert(old(self).is_element(old(self).open_elements@[i]));
                }
            }
            assert forall|i: int| 0 <= i < old(self).nodes().len() && i != parent implies {
                &&& (#[trigger] ns[i]).node_data() == old(self).nodes()[i].node_data()
                &&& ns[i].child_list() == old(self).nodes()[i].child_list()
                &&& ns[i].parent_link() == old(self).nodes()[i].parent_link()
            } by {
                assert(ms[i] == old(self).nodes()[i]);
            }
            assert(appended(old(self).nodes(), ns, parent as int, ns[element as int].node_data()));
        }
        Some(element)
    }
}

} // verus!

verus! {

/// Whether `name` is one of `names`.
fn one_of(name: &str, names: &[&str]) -> (res: bool)
    ensures
        res == names@.map_values(|t: &str| t@).contains(name@),
{
    let ghost ns = names@.map_values(|t: &str| t@);
    let mut i: usize = 0;
    while i < names.len()
        invariant
            i <= names@.len(),
            ns == names@.map_values(|t: &str| t@),
            forall|j: int| 0 <= j < i ==> ns[j] != name@,
        decreases names@.len() - i,
    {
        if str_eq(names[i], name) {
            assert(ns[i as int] == name@);
            return true;
        }
        i += 1;
    }
    false
}

/// The token is a start tag whose name is one of `names`.
fn start_tag_named(token: &Token, names: &[&str]) -> (res: bool)
    ensures
        res == (token@ matches TokenModel::StartTag { name, .. } && names@.map_values(
            |t: &str| t@,
        ).contains(name)),
{
    match token {
        Token::StartTag { name, .. } => one_of(name.as_str(), names),
        _ => false,
    }
}

/// The token is an end tag whose name is one of `names`.
fn end_tag_named(token: &Token, names: &[&str]) -> (res: bool)
    ensures
        res == (token@ matches TokenModel::EndTag { name, .. } && names@.map_values(
            |t: &str| t@,
        ).contains(name)),
{
    match token {
        Token::EndTag { name, .. } => one_of(name.as_str(), names),
        _ => false,
    }
}

/// The character of a character token.
fn character_of(token: &Token) -> (res: Option<char>)
    ensures
        res == (match token@ {
            TokenModel::Character { data } => Some(data),
            _ => None::<char>,
        }),
{
    match token {
        Token::Character { data } => Some(*data),
        _ => None,
    }
}

/// `t` with its self-closing flag acknowledged, where it is a start tag.
pub open spec fn acknowledged(t: TokenModel) -> TokenModel {
    match t {
        TokenModel::StartTag { name, self_closing, self_closing_acknowledged, attributes } => TokenModel::StartTag {
            name,
            self_closing,
            self_closing_acknowledged: self_closing_acknowledged || self_closing,
            attributes,
        },
        other => other,
    }
}

/// The parser leaves a token as it was, or acknowledges its self-closing
/// flag; it changes nothing else in it.
pub open spec fn token_kept_or_acknowledged(before: TokenModel, after: TokenModel) -> bool {
    after == before || after == acknowledged(before)
}

/// A character token holding parser whitespace.
pub open spec fn is_whitespace_token(t: TokenModel) -> bool {
    t matches TokenModel::Character { data } && is_parser_whitespace_spec(data)
}

fn is_whitespace_character(token: &Token) -> (res: bool)
    ensures
        res == is_whitespace_token(token@),
{
    match character_of(token) {
        Some(c) => is_parser_whitespace(c),
        None => false,
    }
}

/// The start tags of the "in head" mode for elements that are popped at
/// once.
pub open spec fn head_void_tags() -> Seq<Seq<char>> {
    seq!["base"@, "basefont"@, "bgsound"@, "link"@, "meta"@]
}

/// "html" is not one of the start tags that go to the "in head" rules.
proof fn lemma_html_is_no_head_tag()
    ensures
        !head_start_tags().contains("html"@),
{
    reveal_strlit("html");
    reveal_strlit("base");
    reveal_strlit("basefont");
    reveal_strlit("bgsound");
    reveal_strlit("link");
    reveal_strlit("meta");
    reveal_strlit("noframes");
    reveal_strlit("script");
    reveal_strlit("style");
    reveal_strlit("template");
    reveal_strlit("title");
    assert forall|i: int| 0 <= i < head_start_tags().len() implies head_start_tags()[i] != "html"@ by {
        assert(head_start_tags()[i][0] != 'h' || head_start_tags()[i].len() != 4);
    }
}

/// Each start tag that goes to the "in head" rules falls under one of
/// its rules.
proof fn lemma_head_start_tag_cases(name: Seq<char>)
    requires
        head_start_tags().contains(name),
    ensures
        head_void_tags().contains(name) || seq!["title"@].contains(name) || seq!["noframes"@, "style"@].contains(
            name,
        ) || seq!["script"@, "template"@].contains(name),
{
    let i = choose|i: int| 0 <= i < head_start_tags().len() && head_start_tags()[i] == name;
    if i < 5 {
        assert(head_void_tags()[i] == name);
    } else if i == 5 {
        assert(seq!["noframes"@, "style"@][0] == name);
    } else if i == 6 {
        assert(seq!["script"@, "template"@][0] == name);
    } else if i == 7 {
        assert(seq!["noframes"@, "style"@][1] == name);
    } else if i == 8 {
        assert(seq!["script"@, "template"@][1] == name);
    } else {
        assert(seq!["title"@][0] == name);
    }
}

/// The start tags that the "after head" mode does not handle.
pub open spec fn after_head_unsupported_tags() -> Seq<Seq<char>> {
    seq![
        "html"@,
        "body"@,
        "frameset"@,
        "base"@,
        "basefont"@,
        "bgsound"@,
        "link"@,
        "meta"@,
        "noframes"@,
        "script"@,
        "style"@,
        "template"@,
        "title"@,
        "head"@,
    ]
}

/// The start tags that the "in body" mode hands to the "in head" rules.
pub open spec fn head_start_tags() -> Seq<Seq<char>> {
    seq![
        "base"@,
        "basefont"@,
        "bgsound"@,
        "link"@,
        "meta"@,
        "noframes"@,
        "script"@,
        "style"@,
        "template"@,
        "title"@,
    ]
}

/// The tokens that the "in body" mode hands to the "in head" rules.
pub open spec fn sent_to_head(t: TokenModel) -> bool {
    ||| (t matches TokenModel::StartTag { name, .. } && head_start_tags().contains(name))
    ||| (t matches TokenModel::EndTag { name, .. } && name == "template"@)
}

/// The tokens that the modes after the body hand to the "in body" rules.
pub open spec fn sent_to_body(t: TokenModel) -> bool {
    ||| is_whitespace_token(t)
    ||| (t matches TokenModel::StartTag { name, .. } && name == "html"@)
    ||| t is Doctype
}

// The tag names of the rules of the "in body" insertion mode.

pub open spec fn end_template_tags() -> Seq<Seq<char>> {
    seq!["template"@]
}

pub open spec fn start_body_or_frameset_tags() -> Seq<Seq<char>> {
    seq!["body"@, "frameset"@]
}

pub open spec fn end_body_or_html_tags() -> Seq<Seq<char>> {
    seq!["body"@, "html"@]
}

pub open spec fn end_html_tags() -> Seq<Seq<char>> {
    seq!["html"@]
}

pub open spec fn start_block_tags() -> Seq<Seq<char>> {
    seq!["address"@, "article"@, "aside"@, "blockquote"@, "center"@, "details"@, "dialog"@, "dir"@, "div"@, "dl"@, "fieldset"@, "figcaption"@, "figure"@, "footer"@, "header"@, "hgroup"@, "main"@, "menu"@, "nav"@, "ol"@, "p"@, "search"@, "section"@, "summary"@, "ul"@]
}

pub open spec fn start_heading_or_pre_tags() -> Seq<Seq<char>> {
    seq!["h1"@, "h2"@, "h3"@, "h4"@, "h5"@, "h6"@, "pre"@, "listing"@]
}

pub open spec fn start_form_tags() -> Seq<Seq<char>> {
    seq!["form"@]
}

pub open spec fn start_li_tags() -> Seq<Seq<char>> {
    seq!["li"@]
}

pub open spec fn start_description_or_button_tags() -> Seq<Seq<char>> {
    seq!["dd"@, "dt"@, "plaintext"@, "button"@]
}

pub open spec fn end_block_tags() -> Seq<Seq<char>> {
    seq!["address"@, "article"@, "aside"@, "blockquote"@, "button"@, "center"@, "details"@, "dialog"@, "dir"@, "div"@, "dl"@, "fieldset"@, "figcaption"@, "figure"@, "footer"@, "header"@, "hgroup"@, "listing"@, "main"@, "menu"@, "nav"@, "ol"@, "pre"@, "search"@, "section"@, "summary"@, "ul"@]
}

pub open spec fn end_form_tags() -> Seq<Seq<char>> {
    seq!["form"@]
}

pub open spec fn end_p_tags() -> Seq<Seq<char>> {
    seq!["p"@]
}

pub open spec fn end_li_tags() -> Seq<Seq<char>> {
    seq!["li"@]
}

pub open spec fn end_description_or_heading_tags() -> Seq<Seq<char>> {
    seq!["dd"@, "dt"@, "h1"@, "h2"@, "h3"@, "h4"@, "h5"@, "h6"@]
}

pub open spec fn start_a_tags() -> Seq<Seq<char>> {
    seq!["a"@]
}

pub open spec fn start_formatting_tags() -> Seq<Seq<char>> {
    seq!["b"@, "big"@, "code"@, "em"@, "font"@, "i"@, "s"@, "small"@, "strike"@, "strong"@, "tt"@, "u"@]
}

pub open spec fn start_nobr_tags() -> Seq<Seq<char>> {
    seq!["nobr"@]
}

pub open spec fn end_formatting_tags() -> Seq<Seq<char>> {
    seq!["a"@, "b"@, "big"@, "code"@, "em"@, "font"@, "i"@, "nobr"@, "s"@, "small"@, "strike"@, "strong"@, "tt"@, "u"@]
}

pub open spec fn start_applet_tags() -> Seq<Seq<char>> {
    seq!["applet"@, "marquee"@, "object"@]
}

pub open spec fn end_applet_or_br_tags() -> Seq<Seq<char>> {
    seq!["applet"@, "marquee"@, "object"@, "br"@]
}

pub open spec fn start_table_tags() -> Seq<Seq<char>> {
    seq!["table"@]
}

pub open spec fn start_void_tags() -> Seq<Seq<char>> {
    seq!["area"@, "br"@, "embed"@, "img"@, "keygen"@, "wbr"@, "input"@]
}

pub open spec fn start_input_tags() -> Seq<Seq<char>> {
    seq!["input"@]
}

pub open spec fn start_unsupported_tags() -> Seq<Seq<char>> {
    seq!["param"@, "source"@, "track"@, "hr"@, "image"@, "textarea"@, "xmp"@, "iframe"@, "noembed"@, "select"@, "optgroup"@, "option"@, "rb"@, "rtc"@, "rp"@, "rt"@, "math"@, "svg"@]
}

pub open spec fn start_noscript_tags() -> Seq<Seq<char>> {
    seq!["noscript"@]
}

pub open spec fn start_ignored_tags() -> Seq<Seq<char>> {
    seq!["caption"@, "col"@, "colgroup"@, "frame"@, "head"@, "tbody"@, "td"@, "tfoot"@, "th"@, "thead"@, "tr"@]
}

/// A start tag token whose name is one of `names`.
pub open spec fn start_in(t: TokenModel, names: Seq<Seq<char>>) -> bool {
    t matches TokenModel::StartTag { name, .. } && names.contains(name)
}

/// An end tag token whose name is one of `names`.
pub open spec fn end_in(t: TokenModel, names: Seq<Seq<char>>) -> bool {
    t matches TokenModel::EndTag { name, .. } && names.contains(name)
}

/// The rules of the "in body" insertion mode, in the order in which they
/// are tried.
#[derive(PartialEq, Eq, Structural, Debug, Clone, Copy)]
pub enum BodyRule {
    Nul,
    NotHandled,
    Ignored,
    HeadRules,
    EndOfFile,
    EndBodyOrHtml,
    Block,
    Form,
    ListItem,
    EndBlock,
    EndForm,
    EndParagraph,
    EndListItem,
    Anchor,
    Formatting,
    EndFormatting,
    Table,
    Void,
    OtherStart,
    OtherEnd,
}

/// The rule of the "in body" insertion mode that applies to `t`.
pub open spec fn body_rule(t: TokenModel, scripting: bool) -> BodyRule {
    if t is Character {
        if t->Character_data == '\u{0}' {
            BodyRule::Nul
        } else {
            BodyRule::NotHandled
        }
    } else if t is Comment || start_in(t, seq!["html"@]) {
        BodyRule::NotHandled
    } else if t is Doctype {
        BodyRule::Ignored
    } else if start_in(t, head_start_tags()) || end_in(t, end_template_tags()) {
        BodyRule::HeadRules
    } else if start_in(t, start_body_or_frameset_tags()) {
        BodyRule::NotHandled
    } else if t is EndOfFile {
        BodyRule::EndOfFile
    } else if end_in(t, end_body_or_html_tags()) {
        BodyRule::EndBodyOrHtml
    } else if start_in(t, start_block_tags()) {
        BodyRule::Block
    } else if start_in(t, start_heading_or_pre_tags()) {
        BodyRule::NotHandled
    } else if start_in(t, start_form_tags()) {
        BodyRule::Form
    } else if start_in(t, start_li_tags()) {
        BodyRule::ListItem
    } else if start_in(t, start_description_or_button_tags()) {
        BodyRule::NotHandled
    } else if end_in(t, end_block_tags()) {
        BodyRule::EndBlock
    } else if end_in(t, end_form_tags()) {
        BodyRule::EndForm
    } else if end_in(t, end_p_tags()) {
        BodyRule::EndParagraph
    } else if end_in(t, end_li_tags()) {
        BodyRule::EndListItem
    } else if end_in(t, end_description_or_heading_tags()) {
        BodyRule::NotHandled
    } else if start_in(t, start_a_tags()) {
        BodyRule::Anchor
    } else if start_in(t, start_formatting_tags()) {
        BodyRule::Formatting
    } else if start_in(t, start_nobr_tags()) {
        BodyRule::NotHandled
    } else if end_in(t, end_formatting_tags()) {
        BodyRule::EndFormatting
    } else if start_in(t, start_applet_tags()) || end_in(t, end_applet_or_br_tags()) {
        BodyRule::NotHandled
    } else if start_in(t, start_table_tags()) {
        BodyRule::Table
    } else if start_in(t, start_void_tags()) {
        BodyRule::Void
    } else if start_in(t, start_unsupported_tags()) || (scripting && start_in(t, start_noscript_tags())) {
        BodyRule::NotHandled
    } else if start_in(t, start_ignored_tags()) {
        BodyRule::Ignored
    } else if t is StartTag {
        BodyRule::OtherStart
    } else {
        BodyRule::OtherEnd
    }
}

/// The number of entries that the generation of implied end tags keeps is
/// unique.
proof fn lemma_kept_unique(s: Seq<NodeRef>, arena: &Arena, except: Option<Seq<char>>, k1: int, k2: int)
    requires
        implied_end_tags_kept(s, arena, except, k1),
        implied_end_tags_kept(s, arena, except, k2),
    ensures
        k1 == k2,
{
    if k1 < k2 {
        assert(crate::tree_construction::stops_implied_end_tags(arena, s[k2 - 1], except));
    }
    if k2 < k1 {
        assert(crate::tree_construction::stops_implied_end_tags(arena, s[k1 - 1], except));
    }
}

/// Node `r` stops the steps of the "li" start tag: a special element other
/// than address, div and p.
pub open spec fn stops_li_search(arena: &Arena, r: NodeRef) -> bool {
    tagged_one_of(arena, r, special_tags()) && !tagged_one_of(arena, r, seq!["address"@, "div"@, "p"@])
}

/// An li element stops the steps of the "li" start tag.
proof fn lemma_li_stops(arena: &Arena, r: NodeRef)
    requires
        tagged(arena, r, "li"@),
    ensures
        stops_li_search(arena, r),
{
    reveal_strlit("li");
    reveal_strlit("address");
    reveal_strlit("div");
    reveal_strlit("p");
    assert(special_tags()[45] == "li"@);
    assert(tagged(arena, r, special_tags()[45]));
    let names = seq!["address"@, "div"@, "p"@];
    if tagged_one_of(arena, r, names) {
        let w = choose|w: int| 0 <= w < names.len() && tagged(arena, r, #[trigger] names[w]);
        assert(names[w].len() != 2);
    }
}

/// The stack `s` holds `target` or an element that bounds the scope: the
/// search of the scope for `target` has an answer.
pub open spec fn node_scope_decided(s: Seq<NodeRef>, arena: &Arena, target: NodeRef) -> bool {
    exists|j: int|
        0 <= j < s.len() && (#[trigger] s[j] == target || crate::tree_construction::bounds_scope(
            arena,
            s[j],
            Seq::empty(),
        ))
}

/// `s` without its first entry of `r`.
pub open spec fn remove_first(s: Seq<NodeRef>, r: NodeRef) -> Seq<NodeRef> {
    match s.index_of_first(r) {
        Some(i) => s.remove(i),
        None => s,
    }
}

/// `a` with its ASCII upper-case letters lowered is `b`.
pub open spec fn ascii_lower_equal(a: Seq<char>, b: Seq<char>) -> bool {
    a.len() == b.len() && forall|i: int| 0 <= i < a.len() ==> ascii_lower(#[trigger] a[i]) == b[i]
}

/// One round of `parse`, from parser `p` and tokenizer `tz` to `p2` and
/// `tz2`: the tokenizer emits its next token, and the parser processes it;
/// `handled` says whether the parser handles it, and where it does, the
/// tokenizer switches to the state that the parser asked for, if any.
pub closed spec fn parse_round(p: Parser, tz: TokenizerModel, p2: Parser, tz2: TokenizerModel, handled: bool) -> bool {
    let tz1 = after_next_token(tz);
    &&& !at_end(tz)
    &&& emits_within(tz, usize::MAX as nat)
    &&& last_token(tz1) is Some
    &&& exists|mid: Parser|
        p.dispatched(last_token(tz1)->0, mid, handled) && if handled {
            p2 == (Parser { new_tokenizer_state: None, ..mid }) && tz2 == match mid.requested_state() {
                Some(s) => switched(tz1, s),
                None => tz1,
            }
        } else {
            p2 == mid && tz2 == tz1
        }
}

/// `trace` is a run of handled rounds of `parse` that starts from `start`
/// (the tokenizer taken out of the parser).
pub closed spec fn parse_run(trace: Seq<(Parser, TokenizerModel)>, start: Parser) -> bool {
    &&& trace.len() >= 1
    &&& trace[0].0 == (Parser { tokenizer: trace[0].0.tokenizer, ..start })
    &&& trace[0].1 == start.tokenizer@
    &&& forall|i: int|
        0 <= i < trace.len() - 1 ==> #[trigger] parse_round(
            trace[i].0,
            trace[i].1,
            trace[i + 1].0,
            trace[i + 1].1,
            true,
        )
}

/// From the last state of a run, `parse` ends with the document: the
/// tokenizer had already emitted the end of the file, or emits no token.
pub closed spec fn parse_finished(last: (Parser, TokenizerModel), fin: Parser) -> bool {
    &&& fin == (Parser { tokenizer: fin.tokenizer, ..last.0 })
    &&& if at_end(last.1) {
        fin.tokenizer@ == (TokenizerModel { token_emitted: false, ..last.1 })
    } else {
        emits_within(last.1, usize::MAX as nat) && last_token(after_next_token(last.1)) is None
            && fin.tokenizer@ == after_next_token(last.1)
    }
}

/// From the last state of a run, `parse` fails: the tokenizer does not
/// handle its input, or the parser does not handle the token it emits.
pub closed spec fn parse_failed(last: (Parser, TokenizerModel), fin: Parser) -> bool {
    &&& !at_end(last.1)
    &&& if emits_within(last.1, usize::MAX as nat) {
        exists|p2: Parser|
            parse_round(last.0, last.1, p2, fin.tokenizer@, false) && fin == (Parser {
                tokenizer: fin.tokenizer,
                ..p2
            })
    } else {
        fin == (Parser { tokenizer: fin.tokenizer, ..last.0 })
    }
}

/// Entry `j` of `s` is the element that the "any other end tag" steps for
/// `tag` close: walking down from the current node, the first element named
/// `tag`, with no special element above it.
pub open spec fn other_end_target(s: Seq<NodeRef>, arena: &Arena, tag: Seq<char>, j: int) -> bool {
    &&& 0 <= j < s.len()
    &&& tagged(arena, s[j], tag)
    &&& forall|k: int|
        j < k < s.len() ==> !tagged(arena, #[trigger] s[k], tag) && !tagged_one_of(arena, s[k], special_tags())
}

/// The stack `s` holds an element with local name `tag` or one that bounds
/// the scope that `extra` extends: the scope search has an answer.
pub open spec fn scope_decided(s: Seq<NodeRef>, arena: &Arena, tag: Seq<char>, extra: Seq<Seq<char>>) -> bool {
    exists|j: int|
        0 <= j < s.len() && (tagged(arena, #[trigger] s[j], tag) || crate::tree_construction::bounds_scope(
            arena,
            s[j],
            extra,
        ))
}

/// How many times a token can be handed on from `mode` at most: every
/// time a token is reprocessed or handed to the rules of another mode, the
/// rank goes down.
pub open spec fn rank(mode: InsertionMode, t: TokenModel) -> nat {
    match mode {
        InsertionMode::BeforeHead => 6,
        InsertionMode::InHead => if sent_to_head(t) {
            1
        } else {
            5
        },
        InsertionMode::AfterHead => 4,
        InsertionMode::InBody => if sent_to_body(t) {
            1
        } else {
            3
        },
        InsertionMode::AfterBody => 2,
        InsertionMode::AfterAfterBody => 2,
        InsertionMode::Text => 7,
        _ => 0,
    }
}

/// The rule of the "in body" insertion mode that applies to `token`.
#[verifier::rlimit(50)]
fn classify_body(token: &Token, scripting: bool) -> (res: BodyRule)
    ensures
        res == body_rule(token@, scripting),
{
    let head_tags: [&str; 10] = [
        "base",
        "basefont",
        "bgsound",
        "link",
        "meta",
        "noframes",
        "script",
        "style",
        "template",
        "title",
    ];
    proof {
        assert(head_tags@.map_values(|t: &str| t@) =~= head_start_tags());
    }
    let end_template: [&str; 1] = ["template"];
    let start_body_or_frameset: [&str; 2] = ["body", "frameset"];
    let end_body_or_html: [&str; 2] = ["body", "html"];
    let end_html: [&str; 1] = ["html"];
    let start_block: [&str; 25] = ["address", "article", "aside", "blockquote", "center", "details", "dialog", "dir", "div", "dl", "fieldset", "figcaption", "figure", "footer", "header", "hgroup", "main", "menu", "nav", "ol", "p", "search", "section", "summary", "ul"];
    let start_heading_or_pre: [&str; 8] = ["h1", "h2", "h3", "h4", "h5", "h6", "pre", "listing"];
    let start_form: [&str; 1] = ["form"];
    let start_li: [&str; 1] = ["li"];
    let start_description_or_button: [&str; 4] = ["dd", "dt", "plaintext", "button"];
    let end_block: [&str; 27] = ["address", "article", "aside", "blockquote", "button", "center", "details", "dialog", "dir", "div", "dl", "fieldset", "figcaption", "figure", "footer", "header", "hgroup", "listing", "main", "menu", "nav", "ol", "pre", "search", "section", "summary", "ul"];
    let end_form: [&str; 1] = ["form"];
    let end_p: [&str; 1] = ["p"];
    let end_li: [&str; 1] = ["li"];
    let end_description_or_heading: [&str; 8] = ["dd", "dt", "h1", "h2", "h3", "h4", "h5", "h6"];
    let start_a: [&str; 1] = ["a"];
    let start_formatting: [&str; 12] = ["b", "big", "code", "em", "font", "i", "s", "small", "strike", "strong", "tt", "u"];
    let start_nobr: [&str; 1] = ["nobr"];
    let end_formatting: [&str; 14] = ["a", "b", "big", "code", "em", "font", "i", "nobr", "s", "small", "strike", "strong", "tt", "u"];
    let start_applet: [&str; 3] = ["applet", "marquee", "object"];
    let end_applet_or_br: [&str; 4] = ["applet", "marquee", "object", "br"];
    let start_table: [&str; 1] = ["table"];
    let start_void: [&str; 7] = ["area", "br", "embed", "img", "keygen", "wbr", "input"];
    let start_input: [&str; 1] = ["input"];
    let start_unsupported: [&str; 18] = ["param", "source", "track", "hr", "image", "textarea", "xmp", "iframe", "noembed", "select", "optgroup", "option", "rb", "rtc", "rp", "rt", "math", "svg"];
    let start_noscript: [&str; 1] = ["noscript"];
    let start_ignored: [&str; 11] = ["caption", "col", "colgroup", "frame", "head", "tbody", "td", "tfoot", "th", "thead", "tr"];
    proof {
        assert(end_template@.map_values(|t: &str| t@) =~= end_template_tags());
        assert(start_body_or_frameset@.map_values(|t: &str| t@) =~= start_body_or_frameset_tags());
        assert(end_body_or_html@.map_values(|t: &str| t@) =~= end_body_or_html_tags());
        assert(end_html@.map_values(|t: &str| t@) =~= end_html_tags());
        assert(start_block@.map_values(|t: &str| t@) =~= start_block_tags());
        assert(start_heading_or_pre@.map_values(|t: &str| t@) =~= start_heading_or_pre_tags());
        assert(start_form@.map_values(|t: &str| t@) =~= start_form_tags());
        assert(start_li@.map_values(|t: &str| t@) =~= start_li_tags());
        assert(start_description_or_button@.map_values(|t: &str| t@) =~= start_description_or_button_tags());
        assert(end_block@.map_values(|t: &str| t@) =~= end_block_tags());
        assert(end_form@.map_values(|t: &str| t@) =~= end_form_tags());
        assert(end_p@.map_values(|t: &str| t@) =~= end_p_tags());
        assert(end_li@.map_values(|t: &str| t@) =~= end_li_tags());
        assert(end_description_or_heading@.map_values(|t: &str| t@) =~= end_description_or_heading_tags());
        assert(start_a@.map_values(|t: &str| t@) =~= start_a_tags());
        assert(start_formatting@.map_values(|t: &str| t@) =~= start_formatting_tags());
        assert(start_nobr@.map_values(|t: &str| t@) =~= start_nobr_tags());
        assert(end_formatting@.map_values(|t: &str| t@) =~= end_formatting_tags());
        assert(start_applet@.map_values(|t: &str| t@) =~= start_applet_tags());
        assert(end_applet_or_br@.map_values(|t: &str| t@) =~= end_applet_or_br_tags());
        assert(start_table@.map_values(|t: &str| t@) =~= start_table_tags());
        assert(start_void@.map_values(|t: &str| t@) =~= start_void_tags());
        assert(start_input@.map_values(|t: &str| t@) =~= start_input_tags());
        assert(start_unsupported@.map_values(|t: &str| t@) =~= start_unsupported_tags());
        assert(start_noscript@.map_values(|t: &str| t@) =~= start_noscript_tags());
        assert(start_ignored@.map_values(|t: &str| t@) =~= start_ignored_tags());
    }
    let html: [&str; 1] = ["html"];
    assert(html@.map_values(|t: &str| t@) =~= seq!["html"@]);
    if let Some(c) = character_of(token) {
        if c == '\u{0}' {
            BodyRule::Nul
        } else {
            BodyRule::NotHandled
        }
    } else if matches!(*token, Token::Comment { .. }) || start_tag_named(token, &html) {
        BodyRule::NotHandled
    } else if matches!(*token, Token::Doctype { .. }) {
        BodyRule::Ignored
    } else if start_tag_named(token, &head_tags) || end_tag_named(token, &end_template) {
        BodyRule::HeadRules
    } else if start_tag_named(token, &start_body_or_frameset) {
        BodyRule::NotHandled
    } else if matches!(*token, Token::EndOfFile) {
        BodyRule::EndOfFile
    } else if end_tag_named(token, &end_body_or_html) {
        BodyRule::EndBodyOrHtml
    } else if start_tag_named(token, &start_block) {
        BodyRule::Block
    } else if start_tag_named(token, &start_heading_or_pre) {
        BodyRule::NotHandled
    } else if start_tag_named(token, &start_form) {
        BodyRule::Form
    } else if start_tag_named(token, &start_li) {
        BodyRule::ListItem
    } else if start_tag_named(token, &start_description_or_button) {
        BodyRule::NotHandled
    } else if end_tag_named(token, &end_block) {
        BodyRule::EndBlock
    } else if end_tag_named(token, &end_form) {
        BodyRule::EndForm
    } else if end_tag_named(token, &end_p) {
        BodyRule::EndParagraph
    } else if end_tag_named(token, &end_li) {
        BodyRule::EndListItem
    } else if end_tag_named(token, &end_description_or_heading) {
        BodyRule::NotHandled
    } else if start_tag_named(token, &start_a) {
        BodyRule::Anchor
    } else if start_tag_named(token, &start_formatting) {
        BodyRule::Formatting
    } else if start_tag_named(token, &start_nobr) {
        BodyRule::NotHandled
    } else if end_tag_named(token, &end_formatting) {
        BodyRule::EndFormatting
    } else if start_tag_named(token, &start_applet) || end_tag_named(token, &end_applet_or_br) {
        BodyRule::NotHandled
    } else if start_tag_named(token, &start_table) {
        BodyRule::Table
    } else if start_tag_named(token, &start_void) {
        BodyRule::Void
    } else if start_tag_named(token, &start_unsupported) || (scripting && start_tag_named(
        token,
        &start_noscript,
    )) {
        BodyRule::NotHandled
    } else if start_tag_named(token, &start_ignored) {
        BodyRule::Ignored
    } else if matches!(*token, Token::StartTag { .. }) {
        BodyRule::OtherStart
    } else {
        BodyRule::OtherEnd
    }
}

impl Parser {
    /// 13.2.7 The end: pops all the nodes off the stack of open elements.
    fn stop_parsing(&mut self)
        requires
            old(self).wf(),
        ensures
            dom_grows(old(self).nodes(), final(self).nodes()),
            final(self).wf(),
            *final(self) == (Parser { open_elements: final(self).open_elements, ..*old(self) }),
            final(self).stack() == Seq::<NodeRef>::empty(),
    {
        self.open_elements.clear();
    }

    /// Appends a comment node with data `data` to the children of `node`.
    fn insert_comment_as_last_child_of(&mut self, data: &String, node: NodeRef)
        requires
            old(self).wf(),
            node < old(self).nodes().len(),
        ensures
            appended_comment(old(self).nodes(), final(self).nodes(), node as int, data@),
            *final(self) == (Parser { arena: final(self).arena, ..*old(self) }),
            dom_grows(old(self).nodes(), final(self).nodes()),
            final(self).wf(),
    {
        self.append_new_node(
            node,
            NodeData::CharacterData {
                data: owned(data.as_str()),
                variant: CharacterDataVariant::Comment,
            },
        );
    }

    /// Processes `token` using the rules for the current insertion mode.
    fn process_token(&mut self, token: &mut Token) -> (handled: bool)
        requires
            old(self).wf(),
        ensures
            token_kept_or_acknowledged(old(token)@, final(token)@),
            old(self).processed(old(token)@, *final(self), handled),
            dom_grows(old(self).nodes(), final(self).nodes()),
            handled && old(token)@ is EndOfFile ==> final(self).stack().len() == 0,
            handled ==> final(self).wf(),
        decreases rank(old(self).mode(), old(token)@), 3nat,
    {
        let mode = self.insertion_mode;
        self.process_token_using_the_rules_for(mode, token)
    }

    /// Processes `token` using the rules for `insertion_mode`; `false` where
    /// the parser does not handle the token in that mode.
    fn process_token_using_the_rules_for(&mut self, insertion_mode: InsertionMode, token: &mut Token) -> (handled: bool)
        requires
            old(self).wf(),
        ensures
            token_kept_or_acknowledged(old(token)@, final(token)@),
            old(self).processed_by(insertion_mode, old(token)@, *final(self), handled),
            dom_grows(old(self).nodes(), final(self).nodes()),
            handled && old(token)@ is EndOfFile ==> final(self).stack().len() == 0,
            handled ==> final(self).wf(),
        decreases rank(insertion_mode, old(token)@), 2nat,
    {
        match insertion_mode {
            InsertionMode::Initial => self.handle_initial(token),
            InsertionMode::BeforeHtml => self.handle_before_html(token),
            InsertionMode::BeforeHead => self.handle_before_head(token),
            InsertionMode::InHead => self.handle_in_head(token),
            InsertionMode::AfterHead => self.handle_after_head(token),
            InsertionMode::InBody => self.handle_in_body(token),
            InsertionMode::AfterBody => self.handle_after_body(token),
            InsertionMode::AfterAfterBody => self.handle_after_after_body(token),
            InsertionMode::Text => self.handle_text(token),
            _ => false,
        }
    }

    fn handle_initial(&mut self, token: &mut Token) -> (handled: bool)
        requires
            old(self).wf(),
        ensures
            token_kept_or_acknowledged(old(token)@, final(token)@),
            old(self).initial_step(old(token)@, *final(self), handled),
            dom_grows(old(self).nodes(), final(self).nodes()),
            handled && old(token)@ is EndOfFile ==> final(self).stack().len() == 0,
            handled ==> final(self).wf(),
        decreases rank(InsertionMode::Initial, old(token)@), 1nat,
    {
        if is_whitespace_character(token) {
            return true;
        }
        match token {
            Token::Comment { data } => {
                let document = self.document;
                self.insert_comment_as_last_child_of(data, document);
                true
            },
            Token::Doctype { name, public_identifier, system_identifier, .. } => {
                let data = NodeData::Doctype {
                    name: match name {
                        Some(n) => owned(n.as_str()),
                        None => String::new(),
                    },
                    public_id: match public_identifier {
                        Some(p) => owned(p.as_str()),
                        None => String::new(),
                    },
                    system_id: match system_identifier {
                        Some(s) => owned(s.as_str()),
                        None => String::new(),
                    },
                };
                let document = self.document;
                self.append_new_node(document, data);
                self.switch_insertion_mode_to(InsertionMode::BeforeHtml);
                true
            },
            _ => false,
        }
    }

    fn handle_before_html(&mut self, token: &mut Token) -> (handled: bool)
        requires
            old(self).wf(),
        ensures
            token_kept_or_acknowledged(old(token)@, final(token)@),
            old(self).before_html_step(old(token)@, *final(self), handled),
            dom_grows(old(self).nodes(), final(self).nodes()),
            handled && old(token)@ is EndOfFile ==> final(self).stack().len() == 0,
            handled ==> final(self).wf(),
        decreases rank(InsertionMode::BeforeHtml, old(token)@), 1nat,
    {
        let html: [&str; 1] = ["html"];
        proof {
            assert(html@.map_values(|t: &str| t@) =~= seq!["html"@]);
        }
        if start_tag_named(token, &html) {
            let document = self.document;
            let element = self.append_new_node(
                document,
                NodeData::Element {
                    name: QualifiedName::new(owned("html")),
                    namespace: Some(Namespace::Html),
                    attributes: Vec::new(),
                },
            );
            self.open_elements.push(element);
            proof {
                assert(self.is_element(element));
                assert forall|i: int| 0 <= i < self.open_elements@.len() implies self.is_element(
                    #[trigger] self.open_elements@[i],
                ) by {
                    if i < old(self).open_elements@.len() {
                        assert(old(self).is_element(old(self).open_elements@[i]));
                    }
                }
            }
            self.switch_insertion_mode_to(InsertionMode::BeforeHead);
            return true;
        }
        false
    }

    fn handle_before_head(&mut self, token: &mut Token) -> (handled: bool)
        requires
            old(self).wf(),
        ensures
            token_kept_or_acknowledged(old(token)@, final(token)@),
            old(self).before_head_step(old(token)@, *final(self), handled),
            dom_grows(old(self).nodes(), final(self).nodes()),
            handled && old(token)@ is EndOfFile ==> final(self).stack().len() == 0,
            handled ==> final(self).wf(),
        decreases rank(InsertionMode::BeforeHead, old(token)@), 1nat,
    {
        if is_whitespace_character(token) {
            return true;
        }
        let html_or_head: [&str; 2] = ["html", "head"];
        let anything_else_end: [&str; 4] = ["head", "body", "html", "br"];
        proof {
            assert(html_or_head@.map_values(|t: &str| t@) =~= seq!["html"@, "head"@]);
            assert(anything_else_end@.map_values(|t: &str| t@) =~= seq!["head"@, "body"@, "html"@, "br"@]);
        }
        if matches!(*token, Token::Comment { .. }) || matches!(*token, Token::Doctype { .. })
            || start_tag_named(token, &html_or_head) {
            return false;
        }
        if matches!(*token, Token::EndTag { .. }) && !end_tag_named(token, &anything_else_end) {
            return false;
        }
        // Anything else: insert a "head" element, make it the head element,
        // and reprocess the token "in head".
        let head = match self.insert_html_element_for_start_tag("head") {
            Some(h) => h,
            None => return false,
        };
        let ghost mid = *self;
        self.head_element = Some(head);
        self.switch_insertion_mode_to(InsertionMode::InHead);
        let ghost at_call = *self;
        let handled = self.process_token(token);
        proof {
            assert(old(self).element_inserted(mid, "head"@));
            assert(at_call == (Parser {
                head_element: Some(old(self).nodes().len() as NodeRef),
                insertion_mode: InsertionMode::InHead,
                ..mid
            }));
            assert(at_call.processed_by(InsertionMode::InHead, old(token)@, *self, handled));
        }
        handled
    }

    fn handle_in_head(&mut self, token: &mut Token) -> (handled: bool)
        requires
            old(self).wf(),
        ensures
            token_kept_or_acknowledged(old(token)@, final(token)@),
            start_in(old(token)@, head_void_tags()) ==> final(token)@ == if handled {
                acknowledged(old(token)@)
            } else {
                old(token)@
            },
            old(self).in_head_step(old(token)@, *final(self), handled),
            dom_grows(old(self).nodes(), final(self).nodes()),
            handled && old(token)@ is EndOfFile ==> final(self).stack().len() == 0,
            handled ==> final(self).wf(),
        decreases rank(InsertionMode::InHead, old(token)@), 1nat,
    {
        let html: [&str; 1] = ["html"];
        let void_head: [&str; 5] = ["base", "basefont", "bgsound", "link", "meta"];
        let title: [&str; 1] = ["title"];
        let raw_text: [&str; 2] = ["noframes", "style"];
        let noscript: [&str; 1] = ["noscript"];
        let script_or_template: [&str; 2] = ["script", "template"];
        let template: [&str; 1] = ["template"];
        let head: [&str; 1] = ["head"];
        let anything_else_end: [&str; 3] = ["body", "html", "br"];
        proof {
            assert(html@.map_values(|t: &str| t@) =~= seq!["html"@]);
            assert(void_head@.map_values(|t: &str| t@) =~= head_void_tags());
            assert(title@.map_values(|t: &str| t@) =~= seq!["title"@]);
            assert(raw_text@.map_values(|t: &str| t@) =~= seq!["noframes"@, "style"@]);
            assert(noscript@.map_values(|t: &str| t@) =~= seq!["noscript"@]);
            assert(script_or_template@.map_values(|t: &str| t@) =~= seq!["script"@, "template"@]);
            assert(template@.map_values(|t: &str| t@) =~= seq!["template"@]);
            assert(head@.map_values(|t: &str| t@) =~= seq!["head"@]);
            assert(anything_else_end@.map_values(|t: &str| t@) =~= seq!["body"@, "html"@, "br"@]);
        }
        if is_whitespace_character(token) || matches!(*token, Token::Comment { .. }) {
            // Inserting characters and comments is not supported.
            return false;
        }
        if matches!(*token, Token::Doctype { .. }) {
            return true;
        }
        if start_tag_named(token, &html) {
            proof {
                lemma_html_is_no_head_tag();
                assert(old(token)@->StartTag_name == "html"@);
            }
            return self.process_token_using_the_rules_for(InsertionMode::InBody, token);
        }
        if start_tag_named(token, &void_head) {
            if self.insert_html_element_for_token(token).is_none() {
                return false;
            }
            self.pop_current();
            token.acknowledge_self_closing_flag_if_set();
            proof {
                assert(self.stack() =~= old(self).stack());
            }
            return true;
        }
        let is_title = start_tag_named(token, &title);
        let raw = start_tag_named(token, &raw_text) || (self.scripting && start_tag_named(token, &noscript));
        if is_title || raw {
            // The "in head" rules never run in the "text" mode.
            if self.insertion_mode == InsertionMode::Text {
                return false;
            }
            let algorithm = if is_title {
                GenericParsingAlgorithm::RcData
            } else {
                GenericParsingAlgorithm::RawText
            };
            return self.follow_generic_parsing_algorithm(algorithm, token);
        }
        if start_tag_named(token, &noscript) {
            if self.insert_html_element_for_token(token).is_none() {
                return false;
            }
            let ghost mid = *self;
            self.switch_insertion_mode_to(InsertionMode::InHeadNoscript);
            proof {
                assert(old(self).element_inserted(mid, old(token)@->StartTag_name));
            }
            return true;
        }
        if start_tag_named(token, &script_or_template) || end_tag_named(token, &template) {
            return false;
        }
        if end_tag_named(token, &head) {
            self.open_elements.pop();
            self.switch_insertion_mode_to(InsertionMode::AfterHead);
            return true;
        }
        if start_tag_named(token, &head) || (matches!(*token, Token::EndTag { .. }) && !end_tag_named(
            token,
            &anything_else_end,
        )) {
            return true;
        }
        // Anything else: pop the head element, switch to "after head" and
        // reprocess the token.
        proof {
            if let TokenModel::StartTag { name, .. } = old(token)@ {
                if head_start_tags().contains(name) {
                    lemma_head_start_tag_cases(name);
                }
            }
            if let TokenModel::EndTag { name, .. } = old(token)@ {
                if name == "template"@ {
                    assert(seq!["template"@][0] == name);
                }
            }
            assert(!sent_to_head(old(token)@));
        }
        self.open_elements.pop();
        self.switch_insertion_mode_to(InsertionMode::AfterHead);
        let ghost at_call = *self;
        let handled = self.process_token(token);
        proof {
            assert(at_call.stack() == popped(old(self).stack()));
            assert(at_call.processed_by(InsertionMode::AfterHead, old(token)@, *self, handled));
        }
        handled
    }

    fn handle_after_head(&mut self, token: &mut Token) -> (handled: bool)
        requires
            old(self).wf(),
        ensures
            token_kept_or_acknowledged(old(token)@, final(token)@),
            old(self).after_head_step(old(token)@, *final(self), handled),
            dom_grows(old(self).nodes(), final(self).nodes()),
            handled && old(token)@ is EndOfFile ==> final(self).stack().len() == 0,
            handled ==> final(self).wf(),
        decreases rank(InsertionMode::AfterHead, old(token)@), 1nat,
    {
        if is_whitespace_character(token) || matches!(*token, Token::Comment { .. }) || matches!(
            *token,
            Token::Doctype { .. }
        ) {
            return false;
        }
        let unsupported_start: [&str; 14] = [
            "html",
            "body",
            "frameset",
            "base",
            "basefont",
            "bgsound",
            "link",
            "meta",
            "noframes",
            "script",
            "style",
            "template",
            "title",
            "head",
        ];
        let unsupported_end: [&str; 4] = ["template", "body", "html", "br"];
        proof {
            assert(unsupported_start@.map_values(|t: &str| t@) =~= after_head_unsupported_tags());
            assert(unsupported_end@.map_values(|t: &str| t@) =~= seq!["template"@, "body"@, "html"@, "br"@]);
        }
        if start_tag_named(token, &unsupported_start) || end_tag_named(token, &unsupported_end) {
            return false;
        }
        // Anything else: insert a "body" element, switch to "in body" and
        // reprocess the token.
        if self.insert_html_element_for_start_tag("body").is_none() {
            return false;
        }
        let ghost mid = *self;
        self.switch_insertion_mode_to(InsertionMode::InBody);
        let ghost at_call = *self;
        let handled = self.process_token(token);
        proof {
            assert(old(self).element_inserted(mid, "body"@));
            assert(at_call == (Parser { insertion_mode: InsertionMode::InBody, ..mid }));
            assert(at_call.processed_by(InsertionMode::InBody, old(token)@, *self, handled));
        }
        handled
    }

    fn handle_text(&mut self, token: &mut Token) -> (handled: bool)
        requires
            old(self).wf(),
        ensures
            token_kept_or_acknowledged(old(token)@, final(token)@),
            old(self).text_step(old(token)@, *final(self), handled),
            dom_grows(old(self).nodes(), final(self).nodes()),
            handled && old(token)@ is EndOfFile ==> final(self).stack().len() == 0,
            handled ==> final(self).wf(),
        decreases rank(InsertionMode::Text, old(token)@), 1nat,
    {
        let script: [&str; 1] = ["script"];
        proof {
            assert(script@.map_values(|t: &str| t@) =~= seq!["script"@]);
        }
        if character_of(token).is_some() || end_tag_named(token, &script) {
            return false;
        }
        let original = match self.original_insertion_mode {
            Some(mode) => mode,
            None => return false,
        };
        self.open_elements.pop();
        self.switch_insertion_mode_to(original);
        if matches!(*token, Token::EndOfFile) {
            let ghost at_call = *self;
            let handled = self.process_token(token);
            proof {
                assert(at_call.stack() == popped(old(self).stack()));
                assert(at_call.processed_by(original, old(token)@, *self, handled));
            }
            handled
        } else {
            true
        }
    }

    fn handle_after_body(&mut self, token: &mut Token) -> (handled: bool)
        requires
            old(self).wf(),
        ensures
            token_kept_or_acknowledged(old(token)@, final(token)@),
            old(self).after_body_step(old(token)@, *final(self), handled),
            dom_grows(old(self).nodes(), final(self).nodes()),
            handled && old(token)@ is EndOfFile ==> final(self).stack().len() == 0,
            handled ==> final(self).wf(),
        decreases rank(InsertionMode::AfterBody, old(token)@), 1nat,
    {
        let html: [&str; 1] = ["html"];
        proof {
            assert(html@.map_values(|t: &str| t@) =~= seq!["html"@]);
        }
        if is_whitespace_character(token) || start_tag_named(token, &html) {
            return self.process_token_using_the_rules_for(InsertionMode::InBody, token);
        }
        match token {
            Token::Comment { data } => {
                match self.open_elements.first() {
                    Some(first) => {
                        proof {
                            assert(self.is_element(self.open_elements@[0]));
                        }
                        self.insert_comment_as_last_child_of(data, first);
                        true
                    },
                    None => false,
                }
            },
            Token::Doctype { .. } => true,
            Token::EndOfFile => {
                self.stop_parsing();
                true
            },
            _ => {
                if end_tag_named(token, &html) {
                    self.switch_insertion_mode_to(InsertionMode::AfterAfterBody);
                } else {
                    self.switch_insertion_mode_to(InsertionMode::InBody);
                }
                true
            },
        }
    }

    fn handle_after_after_body(&mut self, token: &mut Token) -> (handled: bool)
        requires
            old(self).wf(),
        ensures
            token_kept_or_acknowledged(old(token)@, final(token)@),
            old(self).after_after_body_step(old(token)@, *final(self), handled),
            dom_grows(old(self).nodes(), final(self).nodes()),
            handled && old(token)@ is EndOfFile ==> final(self).stack().len() == 0,
            handled ==> final(self).wf(),
        decreases rank(InsertionMode::AfterAfterBody, old(token)@), 1nat,
    {
        let html: [&str; 1] = ["html"];
        proof {
            assert(html@.map_values(|t: &str| t@) =~= seq!["html"@]);
        }
        if matches!(*token, Token::Doctype { .. }) || is_whitespace_character(token) || start_tag_named(
            token,
            &html,
        ) {
            return self.process_token_using_the_rules_for(InsertionMode::InBody, token);
        }
        match token {
            Token::Comment { data } => {
                let document = self.document;
                self.insert_comment_as_last_child_of(data, document);
                true
            },
            Token::EndOfFile => {
                self.stop_parsing();
                true
            },
            _ => {
                self.switch_insertion_mode_to(InsertionMode::InBody);
                true
            },
        }
    }

    /// Whether an element with local name `tag` is in the scope that
    /// `extra` extends; `None` where the stack holds neither such an element
    /// nor one that bounds the scope (the search has no answer there).
    fn tag_in_scope(&self, tag: &str, extra: &[&str]) -> (res: Option<bool>)
        requires
            self.wf(),
        ensures
            res is Some == scope_decided(self.stack(), &self.arena, tag@, extra@.map_values(|t: &str| t@)),
            res matches Some(b) ==> b == tag_in_scope(
                self.stack(),
                &self.arena,
                tag@,
                extra@.map_values(|t: &str| t@),
            ),
    {
        proof {
            self.lemma_valid_refs();
        }
        if !self.open_elements.scope_search_ends(&self.arena, tag, extra) {
            return None;
        }
        Some(self.open_elements.has_tag_name_in_scope(&self.arena, tag, extra))
    }

    /// The stack holds an element with local name `tag`.
    fn stack_has_tag(&self, tag: &str) -> (res: bool)
        requires
            self.wf(),
        ensures
            res == exists|j: int| 0 <= j < self.stack().len() && tagged(&self.arena, #[trigger] self.stack()[j], tag@),
            res == self.stack_holds(tag@),
    {
        proof {
            self.lemma_valid_refs();
        }
        let tags: [&str; 1] = [tag];
        let res = self.open_elements.contains_one_of_tags(&self.arena, &tags);
        proof {
            assert(tags@.map_values(|t: &str| t@) =~= seq![tag@]);
            assert forall|j: int| 0 <= j < self.stack().len() implies (tagged_one_of(
                &self.arena,
                #[trigger] self.stack()[j],
                seq![tag@],
            ) <==> tagged(&self.arena, self.stack()[j], tag@)) by {
                if tagged(&self.arena, self.stack()[j], tag@) {
                    assert(seq![tag@][0] == tag@);
                }
            }
        }
        res
    }

    /// Generates implied end tags, except for `except_for`.
    fn generate_implied_end_tags_except_for(&mut self, except_for: Option<&str>)
        requires
            old(self).wf(),
        ensures
            dom_grows(old(self).nodes(), final(self).nodes()),
            final(self).wf(),
            *final(self) == (Parser { open_elements: final(self).open_elements, ..*old(self) }),
            exists|k: int|
                implied_end_tags_kept(old(self).stack(), &old(self).arena, opt_str(except_for), k)
                    && final(self).stack() == old(self).stack().take(k),
    {
        proof {
            self.lemma_valid_refs();
        }
        self.open_elements.generate_implied_end_tags_except_for(&self.arena, except_for);
        proof {
            let k = choose|k: int|
                implied_end_tags_kept(old(self).stack(), &old(self).arena, opt_str(except_for), k)
                    && self.stack() == old(self).stack().take(k);
            assert forall|i: int| 0 <= i < self.open_elements@.len() implies self.is_element(
                #[trigger] self.open_elements@[i],
            ) by {
                assert(self.open_elements@[i] == old(self).open_elements@[i]);
                assert(old(self).is_element(old(self).open_elements@[i]));
            }
        }
    }

    /// Pops elements until an element with local name `tag` has been
    /// popped; the stack must hold one.
    fn pop_until_tag_popped(&mut self, tag: &str)
        requires
            old(self).wf(),
            exists|j: int| 0 <= j < old(self).stack().len() && tagged(&old(self).arena, #[trigger] old(self).stack()[j], tag@),
        ensures
            dom_grows(old(self).nodes(), final(self).nodes()),
            final(self).wf(),
            *final(self) == (Parser { open_elements: final(self).open_elements, ..*old(self) }),
            exists|k: int|
                is_last_tagged(old(self).stack(), &old(self).arena, tag@, k) && final(self).stack()
                    == old(self).stack().take(k),
    {
        proof {
            self.lemma_valid_refs();
        }
        self.open_elements.pop_elements_until_element_with_tag_name_has_been_popped(&self.arena, tag);
        proof {
            let k = choose|k: int|
                is_last_tagged(old(self).stack(), &old(self).arena, tag@, k) && self.stack() == old(
                    self,
                ).stack().take(k);
            assert forall|i: int| 0 <= i < self.open_elements@.len() implies self.is_element(
                #[trigger] self.open_elements@[i],
            ) by {
                assert(self.open_elements@[i] == old(self).open_elements@[i]);
                assert(old(self).is_element(old(self).open_elements@[i]));
            }
        }
    }

    /// Pops elements until `node` has been popped; the stack must hold it.
    fn pop_until_popped(&mut self, node: NodeRef)
        requires
            old(self).wf(),
            old(self).stack().contains(node),
        ensures
            dom_grows(old(self).nodes(), final(self).nodes()),
            final(self).wf(),
            *final(self) == (Parser { open_elements: final(self).open_elements, ..*old(self) }),
            final(self).stack() == old(self).stack().take(old(self).stack().index_of_last(node).unwrap()),
    {
        self.open_elements.pop_elements_until_element_has_been_popped(node);
        proof {
            old(self).open_elements@.index_of_last_ensures(node);
            assert forall|i: int| 0 <= i < self.open_elements@.len() implies self.is_element(
                #[trigger] self.open_elements@[i],
            ) by {
                assert(self.open_elements@[i] == old(self).open_elements@[i]);
                assert(old(self).is_element(old(self).open_elements@[i]));
            }
        }
    }

    /// Removes the first entry of `element` from the list of active
    /// formatting elements.
    fn remove_from_formatting(&mut self, element: NodeRef)
        requires
            old(self).wf(),
        ensures
            dom_grows(old(self).nodes(), final(self).nodes()),
            final(self).wf(),
            *final(self) == (Parser {
                active_formatting_elements: final(self).active_formatting_elements,
                ..*old(self)
            }),
            match old(self).formatting().index_of_first(ActiveFormattingElement::Element(element)) {
                Some(i) => final(self).formatting() == old(self).formatting().remove(i),
                None => final(self).formatting() == old(self).formatting(),
            },
    {
        self.active_formatting_elements.remove(element);
        proof {
            old(self).active_formatting_elements@.index_of_first_ensures(
                ActiveFormattingElement::Element(element),
            );
            let os = old(self).active_formatting_elements@;
            let ns = self.active_formatting_elements@;
            assert forall|i: int| 0 <= i < ns.len() implies (
            #[trigger] ns[i] matches ActiveFormattingElement::Element(r) ==> self.is_element(r)) by {
                match os.index_of_first(ActiveFormattingElement::Element(element)) {
                    Some(k) => {
                        if i < k {
                            assert(ns[i] == os[i]);
                        } else {
                            assert(ns[i] == os[i + 1]);
                        }
                    },
                    None => {
                        assert(ns[i] == os[i]);
                    },
                }
            }
        }
    }

    /// Closes a p element: generates implied end tags except for p, then
    /// pops elements until a p element has been popped. `false` where no p
    /// element is left on the stack.
    fn close_a_p_element(&mut self) -> (handled: bool)
        requires
            old(self).wf(),
        ensures
            dom_grows(old(self).nodes(), final(self).nodes()),
            final(self).wf(),
            *final(self) == (Parser { open_elements: final(self).open_elements, ..*old(self) }),
            handled ==> old(self).tags_closed(*final(self), Some("p"@), "p"@),
            handled == old(self).close_succeeds(Some("p"@), "p"@),
            !handled ==> exists|k1: int|
                implied_end_tags_kept(old(self).stack(), &old(self).arena, Some("p"@), k1) && final(self).stack()
                    == old(self).stack().take(k1),
    {
        self.close_elements(Some("p"), "p")
    }

    /// Generates implied end tags except for `except`, then pops elements
    /// until an element with local name `tag` has been popped; `false`
    /// where no such element is left on the stack.
    fn close_elements(&mut self, except: Option<&str>, tag: &str) -> (handled: bool)
        requires
            old(self).wf(),
        ensures
            dom_grows(old(self).nodes(), final(self).nodes()),
            final(self).wf(),
            *final(self) == (Parser { open_elements: final(self).open_elements, ..*old(self) }),
            handled ==> old(self).tags_closed(*final(self), opt_str(except), tag@),
            handled == old(self).close_succeeds(opt_str(except), tag@),
            !handled ==> exists|k1: int|
                implied_end_tags_kept(old(self).stack(), &old(self).arena, opt_str(except), k1) && final(self).stack()
                    == old(self).stack().take(k1),
    {
        let ghost s0 = *self;
        self.generate_implied_end_tags_except_for(except);
        let ghost k1 = choose|k1: int|
            implied_end_tags_kept(s0.stack(), &s0.arena, opt_str(except), k1) && self.stack() == s0.stack().take(k1);
        let ghost mid = *self;
        if self.open_elements.current_node().is_none() || !self.stack_has_tag(tag) {
            proof {
                if s0.close_succeeds(opt_str(except), tag@) {
                    let (k2, j) = choose|k2: int, j: int|
                        #![trigger implied_end_tags_kept(s0.stack(), &s0.arena, opt_str(except), k2), s0.stack()[j]]
                        implied_end_tags_kept(s0.stack(), &s0.arena, opt_str(except), k2) && 0 <= j < k2 && tagged(
                            &s0.arena,
                            s0.stack()[j],
                            tag@,
                        );
                    lemma_kept_unique(s0.stack(), &s0.arena, opt_str(except), k1, k2);
                    assert(mid.stack()[j] == s0.stack()[j]);
                }
            }
            return false;
        }
        proof {
            let j = choose|j: int| 0 <= j < mid.stack().len() && tagged(&mid.arena, #[trigger] mid.stack()[j], tag@);
            assert(mid.stack()[j] == s0.stack()[j]);
            assert(implied_end_tags_kept(s0.stack(), &s0.arena, opt_str(except), k1) && s0.stack()[j] == s0.stack()[j]);
        }
        self.pop_until_tag_popped(tag);
        proof {
            let k = choose|k: int| is_last_tagged(mid.stack(), &mid.arena, tag@, k) && self.stack() == mid.stack().take(k);
            assert(self.stack() =~= s0.stack().take(k));
            assert(s0.tags_closed(*self, opt_str(except), tag@));
        }
        true
    }

    /// "Any other end tag" in the "in body" mode: walking the stack down
    /// from the current node, an element named `tag` met before any special
    /// element is closed (implied end tags are generated, then the stack is
    /// cut below it); otherwise the token is ignored.
    fn in_body_any_other_end_tag(&mut self, tag: &str) -> (handled: bool)
        requires
            old(self).wf(),
        ensures
            old(self).other_end_done(*final(self), handled, tag@),
            dom_grows(old(self).nodes(), final(self).nodes()),
            final(self).wf(),
    {
        proof {
            self.lemma_valid_refs();
        }
        let n = self.open_elements.len();
        let mut i: usize = n;
        let ghost s = self.stack();
        while i > 0
            invariant
                i <= n,
                n == self.stack().len(),
                self.wf(),
                *self == *old(self),
                s == self.stack(),
                forall|k: int|
                    i <= k < n ==> !tagged(&self.arena, #[trigger] s[k], tag@) && !tagged_one_of(
                        &self.arena,
                        s[k],
                        special_tags(),
                    ),
            decreases i,
        {
            i -= 1;
            let node = self.open_elements.get(i);
            proof {
                assert(self.is_element(self.open_elements@[i as int]));
            }
            if self.arena.get(node).is_element_with_tag(tag) {
                proof {
                    assert(other_end_target(s, &self.arena, tag@, i as int));
                    assert forall|j: int| #[trigger] other_end_target(s, &self.arena, tag@, j) implies j == i by {
                        if j < i {
                            assert(tagged(&self.arena, s[i as int], tag@));
                        }
                    }
                }
                let ghost s0 = *self;
                self.generate_implied_end_tags_except_for(Some(tag));
                let ghost k1 = choose|k1: int|
                    implied_end_tags_kept(s, &s0.arena, Some(tag@), k1) && self.stack() == s.take(k1);
                proof {
                    if k1 <= i {
                        assert(crate::tree_construction::stops_implied_end_tags(&s0.arena, s[i as int], Some(tag@)));
                    }
                    assert(self.stack()[i as int] == s[i as int]);
                }
                self.pop_until_tag_popped(tag);
                proof {
                    let mid = self.stack();
                    let k = choose|k: int|
                        is_last_tagged(s.take(k1), &s0.arena, tag@, k) && self.stack() == s.take(k1).take(k);
                    if k < i {
                        assert(tagged(&s0.arena, s.take(k1)[i as int], tag@));
                    }
                    if k > i {
                        assert(tagged(&s0.arena, s[k], tag@));
                    }
                    assert(self.stack() =~= s.take(i as int));
                }
                return true;
            }
            if self.arena.get(node).is_special_tag() {
                proof {
                    assert(tagged_one_of(&self.arena, s[i as int], special_tags()));
                    assert forall|j: int| !#[trigger] other_end_target(s, &self.arena, tag@, j) by {
                        if 0 <= j < i {
                            assert(tagged_one_of(&self.arena, s[i as int], special_tags()));
                        }
                    }
                }
                return true;
            }
        }
        proof {
            assert forall|j: int| !#[trigger] other_end_target(s, &self.arena, tag@, j) by {
                if 0 <= j < n {
                    assert(!tagged(&self.arena, s[j], tag@));
                }
            }
        }
        true
    }

    /// The adoption agency algorithm for the token with tag name `subject`.
    fn run_adoption_agency_algorithm_for_token(&mut self, subject: &str) -> (handled: bool)
        requires
            old(self).wf(),
        ensures
            final(self).nodes() == old(self).nodes(),
            dom_grows(old(self).nodes(), final(self).nodes()),
            handled ==> final(self).wf(),
            old(self).adopted(*final(self), handled, subject@),
    {
        proof {
            self.lemma_valid_refs();
        }
        let current = match self.open_elements.current_node() {
            Some(c) => c,
            None => return false,
        };
        proof {
            assert(self.is_element(self.open_elements@[self.open_elements@.len() - 1]));
        }
        if self.arena.get(current).is_element_with_tag(subject) && !self.active_formatting_elements.contains(
            current,
        ) {
            self.open_elements.pop();
            return true;
        }
        // The outer loop of the algorithm runs again only after the steps
        // for a furthest block, which are not supported: it runs once here.
        let formatting_element = match self.active_formatting_elements.last_element_with_tag_name_before_marker(
            &self.arena,
            subject,
        ) {
            Some(f) => f,
            None => {
                proof {
                    assert forall|r: NodeRef| !old(self).formatting_element_for(subject@, r) by {
                        if old(self).formatting_element_for(subject@, r) {
                            let j = choose|j: int|
                                0 <= j < self.formatting().len() && #[trigger] self.formatting()[j]
                                    == ActiveFormattingElement::Element(r) && tagged(&self.arena, r, subject@)
                                    && no_marker_or_tag_after(self.formatting(), &self.arena, j, subject@);
                            assert(self.active_formatting_elements@[j] == ActiveFormattingElement::Element(r));
                        }
                    }
                }
                return self.in_body_any_other_end_tag(subject);
            },
        };
        proof {
            let j = choose|j: int|
                0 <= j < self.active_formatting_elements@.len() && #[trigger] self.active_formatting_elements@[j]
                    == ActiveFormattingElement::Element(formatting_element) && tagged(
                    &self.arena,
                    formatting_element,
                    subject@,
                ) && no_marker_or_tag_after(self.active_formatting_elements@, &self.arena, j, subject@);
            assert(self.formatting()[j] == ActiveFormattingElement::Element(formatting_element));
            assert(self.formatting_element_for(subject@, formatting_element));
            assert forall|r: NodeRef| #[trigger] old(self).formatting_element_for(subject@, r) implies r
                == formatting_element by {
                let j2 = choose|j2: int|
                    0 <= j2 < self.formatting().len() && #[trigger] self.formatting()[j2]
                        == ActiveFormattingElement::Element(r) && tagged(&self.arena, r, subject@)
                        && no_marker_or_tag_after(self.formatting(), &self.arena, j2, subject@);
                if j < j2 {
                    assert(self.active_formatting_elements@[j2] == ActiveFormattingElement::Element(r));
                } else if j2 < j {
                    assert(self.formatting()[j] == ActiveFormattingElement::Element(formatting_element));
                }
            }
            assert(self.formatting().contains(ActiveFormattingElement::Element(formatting_element)));
            self.formatting().index_of_first_ensures(ActiveFormattingElement::Element(formatting_element));
        }
        if !self.open_elements.contains(formatting_element) {
            self.remove_from_formatting(formatting_element);
            return true;
        }
        proof {
            assert(self.open_elements@.contains(formatting_element));
            let j = choose|j: int| 0 <= j < self.open_elements@.len() && self.open_elements@[j] == formatting_element;
            assert(self.open_elements@[j] == formatting_element);
        }
        if !self.open_elements.has_element_in_scope(&self.arena, formatting_element) {
            return true;
        }
        match self.open_elements.topmost_special_node_below(&self.arena, formatting_element) {
            None => {
                self.pop_until_popped(formatting_element);
                self.remove_from_formatting(formatting_element);
                true
            },
            Some(_) => {
                // With a furthest block the algorithm creates an element
                // for an end tag token and moves nodes that have a
                // parent: neither is supported.
                false
            },
        }
    }

    /// Inserts an HTML element for the start tag `token`.
    fn insert_html_element_for_token(&mut self, token: &Token) -> (res: Option<NodeRef>)
        requires
            old(self).wf(),
            token@ is StartTag,
        ensures
            dom_grows(old(self).nodes(), final(self).nodes()),
            res is Some == (old(self).stack().len() > 0),
            res is None ==> *final(self) == *old(self) && old(self).stack().len() == 0,
            res matches Some(e) ==> {
                &&& e == old(self).nodes().len()
                &&& final(self).wf()
                &&& appended_element(
                    old(self).nodes(),
                    final(self).nodes(),
                    old(self).stack().last() as int,
                    token@->StartTag_name,
                )
                &&& final(self).stack() == old(self).stack().push(e)
                &&& *final(self) == (Parser {
                    arena: final(self).arena,
                    open_elements: final(self).open_elements,
                    ..*old(self)
                })
            },
    {
        match token.tag_name() {
            Some(name) => self.insert_html_element_for_start_tag(name.as_str()),
            None => None,
        }
    }

    /// Closes a p element where one is in button scope; `false` where the
    /// scope search has no answer.
    fn close_p_in_button_scope(&mut self) -> (handled: bool)
        requires
            old(self).wf(),
        ensures
            dom_grows(old(self).nodes(), final(self).nodes()),
            final(self).wf(),
            handled == old(self).scope_known("p"@, seq!["button"@]),
            handled ==> if old(self).has_in_scope("p"@, seq!["button"@]) {
                old(self).tags_closed(*final(self), Some("p"@), "p"@)
            } else {
                *final(self) == *old(self)
            },
    {
        let button: [&str; 1] = ["button"];
        proof {
            assert(button@.map_values(|t: &str| t@) =~= seq!["button"@]);
        }
        match self.tag_in_scope("p", &button) {
            Some(true) => {
                let closed = self.close_a_p_element();
                proof {
                    old(self).lemma_in_scope_closes("p"@, seq!["button"@]);
                }
                closed
            },
            Some(false) => true,
            None => false,
        }
    }

    fn handle_in_body(&mut self, token: &mut Token) -> (handled: bool)
        requires
            old(self).wf(),
        ensures
            token_kept_or_acknowledged(old(token)@, final(token)@),
            old(self).in_body_step(old(token)@, *final(self), handled),
            dom_grows(old(self).nodes(), final(self).nodes()),
            handled && old(token)@ is EndOfFile ==> final(self).stack().len() == 0,
            handled ==> final(self).wf(),
        decreases rank(InsertionMode::InBody, old(token)@), 1nat,
    {
        match classify_body(token, self.scripting) {
            BodyRule::Nul | BodyRule::Ignored => true,
            BodyRule::NotHandled => false,
            BodyRule::HeadRules => {
                proof {
                    if let TokenModel::StartTag { name, .. } = token@ {
                        if name == "html"@ {
                            assert(seq!["html"@][0] == name);
                        }
                    }
                    assert(!sent_to_body(token@));
                }
                self.process_token_using_the_rules_for(InsertionMode::InHead, token)
            },
            BodyRule::EndOfFile => {
                self.stop_parsing();
                true
            },
            BodyRule::EndBodyOrHtml => self.body_end_body_or_html(token),
            BodyRule::Block => self.body_block(token),
            BodyRule::Form => self.body_form(token),
            BodyRule::ListItem => self.body_list_item(token),
            BodyRule::EndBlock => self.body_end_block(token),
            BodyRule::EndForm => self.body_end_form(),
            BodyRule::EndParagraph => self.body_end_paragraph(),
            BodyRule::EndListItem => self.body_end_list_item(),
            BodyRule::Anchor => self.body_anchor(token),
            BodyRule::Formatting => self.insert_formatting_element(token),
            BodyRule::EndFormatting => match token.tag_name() {
                Some(name) => self.run_adoption_agency_algorithm_for_token(name.as_str()),
                None => false,
            },
            BodyRule::Table => self.body_table(token),
            BodyRule::Void => self.body_void(token),
            BodyRule::OtherStart => self.insert_html_element_for_token(token).is_some(),
            BodyRule::OtherEnd => match token.tag_name() {
                Some(name) => self.in_body_any_other_end_tag(name.as_str()),
                None => false,
            },
        }
    }

    /// An end tag "body" or "html" in the "in body" mode.
    fn body_end_body_or_html(&mut self, token: &mut Token) -> (handled: bool)
        requires
            old(self).wf(),
            end_in(old(token)@, end_body_or_html_tags()),
        ensures
            token_kept_or_acknowledged(old(token)@, final(token)@),
            dom_grows(old(self).nodes(), final(self).nodes()),
            handled ==> final(self).wf(),
            handled <==> scope_decided(old(self).stack(), &old(self).arena, "body"@, Seq::empty()),
            handled ==> if tag_in_scope(old(self).stack(), &old(self).arena, "body"@, Seq::empty()) {
                *final(self) == (Parser {
                    insertion_mode: if end_in(old(token)@, seq!["html"@]) {
                        InsertionMode::AfterAfterBody
                    } else {
                        InsertionMode::AfterBody
                    },
                    ..*old(self)
                })
            } else {
                *final(self) == *old(self)
            },
        decreases rank(InsertionMode::InBody, old(token)@), 0nat,
    {
        let none: [&str; 0] = [];
        let end_html: [&str; 1] = ["html"];
        proof {
            assert(none@.map_values(|t: &str| t@) =~= Seq::<Seq<char>>::empty());
            assert(end_html@.map_values(|t: &str| t@) =~= seq!["html"@]);
        }
        match self.tag_in_scope("body", &none) {
            None => return false,
            Some(false) => return true,
            Some(true) => {},
        }
        self.switch_insertion_mode_to(InsertionMode::AfterBody);
        if end_tag_named(token, &end_html) {
            return self.process_token(token);
        }
        true
    }

    /// A start tag of a block element in the "in body" mode.
    fn body_block(&mut self, token: &Token) -> (handled: bool)
        requires
            old(self).wf(),
            token@ is StartTag,
        ensures
            dom_grows(old(self).nodes(), final(self).nodes()),
            handled ==> final(self).wf(),
            old(self).block_started(*final(self), handled, token@->StartTag_name),
    {
        if !self.close_p_in_button_scope() {
            return false;
        }
        let ghost mid = *self;
        let inserted = self.insert_html_element_for_token(token).is_some();
        proof {
            let has = old(self).has_in_scope("p"@, seq!["button"@]);
            if inserted {
                assert(mid.element_inserted(*self, token@->StartTag_name));
                assert(mid.stack().len() > 0);
                assert((if has {
                    old(self).tags_closed(mid, Some("p"@), "p"@)
                } else {
                    mid == *old(self)
                }) && mid.stack().len() > 0);
            } else {
                assert forall|m: Parser|
                    (if has {
                        old(self).tags_closed(m, Some("p"@), "p"@)
                    } else {
                        m == *old(self)
                    }) implies m.stack().len() == 0 by {
                    if has {
                        old(self).lemma_tags_closed_unique(mid, m, Some("p"@), "p"@);
                    }
                }
            }
            assert(old(self).scope_known("p"@, seq!["button"@]));
            assert(inserted <==> exists|m: Parser|
                #![trigger m.stack()]
                (if has {
                    old(self).tags_closed(m, Some("p"@), "p"@)
                } else {
                    m == *old(self)
                }) && m.stack().len() > 0);
        }
        inserted
    }

    /// A start tag "form" in the "in body" mode.
    fn body_form(&mut self, token: &Token) -> (handled: bool)
        requires
            old(self).wf(),
            token@ is StartTag,
        ensures
            dom_grows(old(self).nodes(), final(self).nodes()),
            handled ==> final(self).wf(),
            old(self).form_start_ignored() ==> handled && *final(self) == *old(self),
            !old(self).form_start_ignored() ==> old(self).form_started(*final(self), handled, token@->StartTag_name),
    {
        if self.form_element.is_some() && !self.stack_has_tag("template") {
            return true;
        }
        if !self.close_p_in_button_scope() {
            return false;
        }
        let ghost mid = *self;
        if self.insert_html_element_for_token(token).is_none() {
            return false;
        }
        let ghost ins = *self;
        proof {
            assert(mid.element_inserted(ins, token@->StartTag_name));
        }
        if !self.stack_has_tag("template") {
            self.form_element = self.open_elements.current_node();
            proof {
                assert(self.is_element(self.open_elements@[self.open_elements@.len() - 1]));
            }
        }
        proof {
            assert(old(self).form_inserted(mid, ins, *self, token@->StartTag_name));
        }
        true
    }

    /// A start tag "li" in the "in body" mode.
    fn body_list_item(&mut self, token: &Token) -> (handled: bool)
        requires
            old(self).wf(),
            token@ is StartTag,
        ensures
            dom_grows(old(self).nodes(), final(self).nodes()),
            handled ==> final(self).wf(),
            old(self).li_start_meets_li() ==> exists|mid: Parser|
                (Parser { frameset_ok: false, ..*old(self) }).tags_closed(mid, Some("li"@), "li"@)
                    && mid.block_started(*final(self), handled, token@->StartTag_name),
            !old(self).li_start_meets_li() ==> (Parser { frameset_ok: false, ..*old(self) }).block_started(
                *final(self),
                handled,
                token@->StartTag_name,
            ),
    {
        self.frameset_ok = false;
        proof {
            assert(self.stack() == old(self).stack());
            assert(self.arena == old(self).arena);
            assert(self.li_start_meets_li() == old(self).li_start_meets_li());
        }
        if self.li_search_meets_li() {
            // An li element met first is closed: implied end tags other
            // than li are generated, then elements are popped until an li
            // element has been popped.
            let ghost cleared = *self;
            let closed = self.close_elements(Some("li"), "li");
            proof {
                let j = choose|j: int|
                    0 <= j < cleared.stack().len() && tagged(&cleared.arena, #[trigger] cleared.stack()[j], "li"@)
                        && forall|k: int|
                        j < k < cleared.stack().len() ==> !stops_li_search(&cleared.arena, #[trigger] cleared.stack()[k]);
                cleared.lemma_tagged_closes("li"@, j);
                assert(closed);
            }
            let ghost mid = *self;
            let handled = self.body_block(token);
            proof {
                assert(cleared.tags_closed(mid, Some("li"@), "li"@) && mid.block_started(*self, handled, token@->StartTag_name));
            }
            return handled;
        }
        self.body_block(token)
    }

    /// Whether the steps of the "li" start tag, walking the stack down from
    /// the current node, meet an li element before they stop.
    fn li_search_meets_li(&self) -> (res: bool)
        requires
            self.wf(),
        ensures
            res == self.li_start_meets_li(),
    {
        proof {
            self.lemma_valid_refs();
        }
        let ghost s = self.stack();
        let address_div_p: [&str; 3] = ["address", "div", "p"];
        proof {
            assert(address_div_p@.map_values(|t: &str| t@) =~= seq!["address"@, "div"@, "p"@]);
        }
        let n = self.open_elements.len();
        let mut i: usize = n;
        while i > 0
            invariant
                i <= n,
                n == s.len(),
                self.wf(),
                s == self.stack(),
                address_div_p@.map_values(|t: &str| t@) == seq!["address"@, "div"@, "p"@],
                forall|k: int| i <= k < n ==> !stops_li_search(&self.arena, #[trigger] s[k]),
            decreases i,
        {
            i -= 1;
            let node = self.open_elements.get(i);
            proof {
                assert(self.is_element(self.open_elements@[i as int]));
            }
            if self.arena.get(node).is_element_with_tag("li") {
                proof {
                    assert(tagged(&self.arena, s[i as int], "li"@));
                }
                return true;
            }
            let special = self.arena.get(node).is_special_tag();
            let excepted = self.arena.get(node).is_element_with_one_of_tags(&address_div_p);
            let stops = special && !excepted;
            proof {
                let names = seq!["address"@, "div"@, "p"@];
                if tagged_one_of(&self.arena, node, names) {
                    let w = choose|w: int| 0 <= w < names.len() && tagged(&self.arena, node, #[trigger] names[w]);
                    assert(names[w] == address_div_p@[w]@);
                }
                if excepted {
                    let w = choose|w: int| 0 <= w < address_div_p@.len() && self.arena.nodes()[node as int].has_tag(#[trigger] address_div_p@[w]@);
                    assert(names[w] == address_div_p@[w]@);
                }
                assert(stops == stops_li_search(&self.arena, node));
            }
            if stops {
                proof {
                    if self.li_start_meets_li() {
                        let j = choose|j: int|
                            0 <= j < s.len() && tagged(&self.arena, #[trigger] s[j], "li"@) && forall|k: int|
                                j < k < s.len() ==> !stops_li_search(&self.arena, #[trigger] s[k]);
                        if j > i {
                            lemma_li_stops(&self.arena, s[j]);
                        } else if j < i {
                            assert(stops_li_search(&self.arena, s[i as int]));
                        }
                    }
                }
                return false;
            }
        }
        proof {
            if self.li_start_meets_li() {
                let j = choose|j: int|
                    0 <= j < s.len() && tagged(&self.arena, #[trigger] s[j], "li"@) && forall|k: int|
                        j < k < s.len() ==> !stops_li_search(&self.arena, #[trigger] s[k]);
                lemma_li_stops(&self.arena, s[j]);
            }
        }
        false
    }

    /// An end tag of a block element in the "in body" mode.
    fn body_end_block(&mut self, token: &Token) -> (handled: bool)
        requires
            old(self).wf(),
            token@ is EndTag,
        ensures
            dom_grows(old(self).nodes(), final(self).nodes()),
            handled ==> final(self).wf(),
            old(self).end_block_done(*final(self), handled, token@->EndTag_name),
    {
        let name = match token.tag_name() {
            Some(n) => n,
            None => return false,
        };
        let none: [&str; 0] = [];
        proof {
            assert(none@.map_values(|t: &str| t@) =~= Seq::<Seq<char>>::empty());
        }
        match self.tag_in_scope(name.as_str(), &none) {
            None => return false,
            Some(false) => return true,
            Some(true) => {},
        }
        self.close_elements(None, name.as_str())
    }

    /// An end tag "form" in the "in body" mode.
    fn body_end_form(&mut self) -> (handled: bool)
        requires
            old(self).wf(),
        ensures
            dom_grows(old(self).nodes(), final(self).nodes()),
            handled ==> final(self).wf(),
            old(self).stack_holds("template"@) ==> !handled,
            !old(self).stack_holds("template"@) ==> old(self).form_ended(*final(self), handled),
    {
        if self.stack_has_tag("template") {
            return false;
        }
        let node = self.form_element;
        self.form_element = None;
        let node = match node {
            Some(n) => n,
            None => return true,
        };
        proof {
            self.lemma_valid_refs();
        }
        if !self.open_elements.node_scope_search_ends(&self.arena, node) {
            return false;
        }
        if !self.open_elements.has_element_in_scope(&self.arena, node) {
            return true;
        }
        self.generate_implied_end_tags_except_for(None);
        if self.open_elements.current_node().is_none() {
            return false;
        }
        self.remove_from_stack(node);
        true
    }

    /// An end tag "p" in the "in body" mode.
    fn body_end_paragraph(&mut self) -> (handled: bool)
        requires
            old(self).wf(),
        ensures
            dom_grows(old(self).nodes(), final(self).nodes()),
            handled ==> final(self).wf(),
            handled == (old(self).scope_known("p"@, seq!["button"@]) && (old(self).has_in_scope(
                "p"@,
                seq!["button"@],
            ) || old(self).stack().len() > 0)),
            handled ==> if old(self).has_in_scope("p"@, seq!["button"@]) {
                old(self).tags_closed(*final(self), Some("p"@), "p"@)
            } else {
                exists|mid: Parser|
                    old(self).element_inserted(mid, "p"@) && mid.tags_closed(*final(self), Some("p"@), "p"@)
            },
    {
        let button: [&str; 1] = ["button"];
        proof {
            assert(button@.map_values(|t: &str| t@) =~= seq!["button"@]);
        }
        match self.tag_in_scope("p", &button) {
            None => return false,
            Some(true) => {},
            Some(false) => {
                if self.insert_html_element_for_start_tag("p").is_none() {
                    return false;
                }
            },
        }
        let ghost mid = *self;
        let closed = self.close_a_p_element();
        proof {
            if old(self).has_in_scope("p"@, seq!["button"@]) {
                old(self).lemma_in_scope_closes("p"@, seq!["button"@]);
                assert(mid == *old(self));
            } else {
                assert(old(self).element_inserted(mid, "p"@));
                mid.lemma_current_closes("p"@);
            }
        }
        closed
    }

    /// An end tag "li" in the "in body" mode.
    fn body_end_list_item(&mut self) -> (handled: bool)
        requires
            old(self).wf(),
        ensures
            dom_grows(old(self).nodes(), final(self).nodes()),
            handled ==> final(self).wf(),
            old(self).end_li_done(*final(self), handled),
    {
        let list: [&str; 2] = ["ol", "ul"];
        proof {
            assert(list@.map_values(|t: &str| t@) =~= seq!["ol"@, "ul"@]);
        }
        match self.tag_in_scope("li", &list) {
            None => return false,
            Some(false) => return true,
            Some(true) => {},
        }
        let closed = self.close_elements(Some("li"), "li");
        proof {
            old(self).lemma_in_scope_closes("li"@, seq!["ol"@, "ul"@]);
        }
        closed
    }

    /// A start tag "a" in the "in body" mode.
    fn body_anchor(&mut self, token: &Token) -> (handled: bool)
        requires
            old(self).wf(),
            start_in(token@, start_a_tags()),
        ensures
            dom_grows(old(self).nodes(), final(self).nodes()),
            handled ==> final(self).wf(),
            handled <==> old(self).stack().len() > 0 && !old(self).anchor_between(),
            handled ==> old(self).formatting_inserted(*final(self), "a"@),
    {
        proof {
            self.lemma_valid_refs();
        }
        if self.active_formatting_elements.contains_element_between(
            &self.arena,
            Position::End,
            Position::LastMarkerOrElseStart,
            "a",
        ) {
            // The adoption agency algorithm runs for a start tag here, and
            // removing the element afterwards is not supported.
            return false;
        }
        proof {
            assert(token@->StartTag_name == "a"@) by {
                assert(start_a_tags().contains(token@->StartTag_name));
            }
        }
        self.insert_formatting_element(token)
    }

    /// A start tag "table" in the "in body" mode.
    fn body_table(&mut self, token: &Token) -> (handled: bool)
        requires
            old(self).wf(),
            start_in(token@, start_table_tags()),
        ensures
            dom_grows(old(self).nodes(), final(self).nodes()),
            handled ==> final(self).wf(),
            handled <==> old(self).stack().len() > 0,
            handled ==> exists|mid: Parser|
                old(self).element_inserted(mid, "table"@) && *final(self) == (Parser {
                    insertion_mode: InsertionMode::InTable,
                    frameset_ok: false,
                    ..mid
                }),
    {
        proof {
            assert(token@->StartTag_name == "table"@) by {
                assert(start_table_tags().contains(token@->StartTag_name));
            }
        }
        if self.insert_html_element_for_token(token).is_none() {
            return false;
        }
        let ghost mid = *self;
        assert(old(self).element_inserted(mid, "table"@));
        self.frameset_ok = false;
        self.switch_insertion_mode_to(InsertionMode::InTable);
        true
    }

    /// A start tag of a void element in the "in body" mode: the element is
    /// inserted and popped at once.
    fn body_void(&mut self, token: &mut Token) -> (handled: bool)
        requires
            old(self).wf(),
            start_in(old(token)@, start_void_tags()),
        ensures
            token_kept_or_acknowledged(old(token)@, final(token)@),
            final(token)@ == if handled {
                acknowledged(old(token)@)
            } else {
                old(token)@
            },
            dom_grows(old(self).nodes(), final(self).nodes()),
            handled ==> final(self).wf(),
            handled <==> old(self).stack().len() > 0,
            handled ==> {
                &&& appended_element(
                    old(self).nodes(),
                    final(self).nodes(),
                    old(self).stack().last() as int,
                    old(token)@->StartTag_name,
                )
                &&& final(self).stack() == old(self).stack()
                &&& *final(self) == (Parser {
                    arena: final(self).arena,
                    open_elements: final(self).open_elements,
                    frameset_ok: final(self).frameset_ok,
                    ..*old(self)
                })
                &&& !start_in(old(token)@, seq!["input"@]) ==> !final(self).frameset_ok()
            },
    {
        let start_input: [&str; 1] = ["input"];
        proof {
            assert(start_input@.map_values(|t: &str| t@) =~= seq!["input"@]);
        }
        if self.insert_html_element_for_token(token).is_none() {
            return false;
        }
        let ghost mid = *self;
        self.pop_current();
        proof {
            assert(self.stack() =~= old(self).stack());
        }
        let is_input = start_tag_named(token, &start_input);
        token.acknowledge_self_closing_flag_if_set();
        if is_input {
            if let Token::StartTag { attributes, .. } = token {
                match type_attribute(attributes) {
                    None => {
                        self.frameset_ok = false;
                    },
                    Some(value) => {
                        if eq_ignore_ascii_case(value.as_str(), "hidden") {
                            self.frameset_ok = false;
                        }
                    },
                }
            }
        } else {
            self.frameset_ok = false;
        }
        true
    }

    /// Inserts an HTML element for the start tag `token` and pushes it onto
    /// the list of active formatting elements.
    fn insert_formatting_element(&mut self, token: &Token) -> (handled: bool)
        requires
            old(self).wf(),
            token@ is StartTag,
        ensures
            handled == (old(self).stack().len() > 0),
            handled ==> old(self).formatting_inserted(*final(self), token@->StartTag_name),
            dom_grows(old(self).nodes(), final(self).nodes()),
            handled ==> final(self).wf(),
    {
        match self.insert_html_element_for_token(token) {
            Some(element) => {
                proof {
                    assert(self.is_element(self.open_elements@[self.open_elements@.len() - 1]));
                }
                let ghost mid = *self;
                assert(old(self).element_inserted(mid, token@->StartTag_name));
                self.active_formatting_elements.push_element(element);
                assert(*self == (Parser {
                    active_formatting_elements: self.active_formatting_elements,
                    ..mid
                }));
                proof {
                    assert forall|i: int| 0 <= i < self.active_formatting_elements@.len() implies (
                    #[trigger] self.active_formatting_elements@[i] matches ActiveFormattingElement::Element(r)
                        ==> self.is_element(r)) by {
                        if i < self.active_formatting_elements@.len() - 1 {
                            assert(self.active_formatting_elements@[i] == old(self).active_formatting_elements@[i]);
                        }
                    }
                }
                true
            },
            None => false,
        }
    }

    /// Pops the current node off the stack of open elements.
    fn pop_current(&mut self)
        requires
            old(self).wf(),
        ensures
            dom_grows(old(self).nodes(), final(self).nodes()),
            final(self).wf(),
            *final(self) == (Parser { open_elements: final(self).open_elements, ..*old(self) }),
            final(self).stack() == (if old(self).stack().len() > 0 {
                old(self).stack().drop_last()
            } else {
                old(self).stack()
            }),
    {
        self.open_elements.pop();
    }

    /// Removes the first entry of `node` from the stack of open elements.
    fn remove_from_stack(&mut self, node: NodeRef)
        requires
            old(self).wf(),
        ensures
            dom_grows(old(self).nodes(), final(self).nodes()),
            final(self).wf(),
            final(self).stack() == remove_first(old(self).stack(), node),
            *final(self) == (Parser { open_elements: final(self).open_elements, ..*old(self) }),
    {
        self.open_elements.remove_element(node);
        proof {
            old(self).open_elements@.index_of_first_ensures(node);
            let os = old(self).open_elements@;
            let ns = self.open_elements@;
            assert forall|i: int| 0 <= i < ns.len() implies self.is_element(#[trigger] ns[i]) by {
                match os.index_of_first(node) {
                    Some(k) => {
                        if i < k {
                            assert(ns[i] == os[i]);
                        } else {
                            assert(ns[i] == os[i + 1]);
                        }
                        assert(old(self).is_element(os[if i < k { i } else { i + 1 }]));
                    },
                    None => {
                        assert(old(self).is_element(os[i]));
                    },
                }
            }
        }
    }
}

/// The value of the first attribute named "type", if any.
fn type_attribute(attributes: &Vec<Attribute>) -> (res: Option<&String>)
    ensures
        match res {
            Some(v) => exists|i: int|
                0 <= i < attributes@.len() && attributes@[i].name@ == "type"@ && #[trigger] attributes@[i].value == *v
                    && forall|j: int| 0 <= j < i ==> (#[trigger] attributes@[j]).name@ != "type"@,
            None => forall|i: int| 0 <= i < attributes@.len() ==> (#[trigger] attributes@[i]).name@ != "type"@,
        },
{
    let mut i: usize = 0;
    while i < attributes.len()
        invariant
            i <= attributes@.len(),
            forall|j: int| 0 <= j < i ==> (#[trigger] attributes@[j]).name@ != "type"@,
        decreases attributes@.len() - i,
    {
        if str_eq(attributes[i].name.as_str(), "type") {
            return Some(&attributes[i].value);
        }
        i += 1;
    }
    None
}

/// The ASCII lowercase of a character.
pub open spec fn ascii_lower(c: char) -> char {
    if 'A' <= c && c <= 'Z' {
        ((c as u32) + 32) as char
    } else {
        c
    }
}

/// `a` and `b` are equal up to the case of ASCII letters.
pub open spec fn eq_ignore_ascii_case_spec(a: Seq<char>, b: Seq<char>) -> bool {
    a.len() == b.len() && forall|i: int| 0 <= i < a.len() ==> ascii_lower(#[trigger] a[i]) == ascii_lower(b[i])
}

fn to_ascii_lower(c: char) -> (res: char)
    ensures
        res == ascii_lower(c),
{
    if 'A' <= c && c <= 'Z' {
        let v: u32 = (c as u32) + 32;
        crate::html_tokenizer::char_from_u32(v).unwrap()
    } else {
        c
    }
}

/// Whether `a` and `b` are equal up to the case of ASCII letters.
fn eq_ignore_ascii_case(a: &str, b: &str) -> (res: bool)
    ensures
        res == eq_ignore_ascii_case_spec(a@, b@),
{
    let x = chars_of(a);
    let y = chars_of(b);
    if x.len() != y.len() {
        return false;
    }
    let mut i: usize = 0;
    while i < x.len()
        invariant
            i <= x@.len(),
            x@ == a@,
            y@ == b@,
            x@.len() == y@.len(),
            forall|j: int| 0 <= j < i ==> ascii_lower(#[trigger] x@[j]) == ascii_lower(y@[j]),
        decreases x@.len() - i,
    {
        if to_ascii_lower(x[i]) != to_ascii_lower(y[i]) {
            return false;
        }
        i += 1;
    }
    true
}

} // verus!

verus! {

/// The generic parsing algorithms for raw text and RCDATA elements.
#[derive(PartialEq, Eq, Structural, Debug, Clone, Copy)]
enum GenericParsingAlgorithm {
    RawText,
    RcData,
}

/// The lowercase of `a` is `b`.
fn lowercase_equals(a: &str, b: &str) -> (res: bool)
    ensures
        res == ascii_lower_equal(a@, b@),
{
    let x = chars_of(a);
    let y = chars_of(b);
    if x.len() != y.len() {
        return false;
    }
    let mut i: usize = 0;
    while i < x.len()
        invariant
            i <= x@.len(),
            x@ == a@,
            y@ == b@,
            x@.len() == y@.len(),
            forall|j: int| 0 <= j < i ==> ascii_lower(#[trigger] x@[j]) == y@[j],
        decreases x@.len() - i,
    {
        if to_ascii_lower(x[i]) != y[i] {
            return false;
        }
        i += 1;
    }
    true
}

/// The start tags that break out of foreign content.
/// The start tags that break out of foreign content.
pub open spec fn breakout_tags() -> Seq<Seq<char>> {
    seq![
        "b"@, "big"@, "blockquote"@, "body"@, "br"@, "center"@, "code"@, "dd"@, "div"@, "dl"@, "dt"@,
        "em"@, "embed"@, "h1"@, "h2"@, "h3"@, "h4"@, "h5"@, "h6"@, "head"@, "hr"@, "i"@, "img"@, "li"@,
        "listing"@, "menu"@, "meta"@, "nobr"@, "ol"@, "p"@, "pre"@, "ruby"@, "s"@, "small"@, "span"@,
        "strong"@, "strike"@, "sub"@, "sup"@, "table"@, "tt"@, "u"@, "ul"@, "var"@,
    ]
}

/// The token breaks out of foreign content: a start tag named in
/// `breakout_tags`, or a "font" start tag with a color, face or size
/// attribute.
pub open spec fn breaks_out_spec(t: TokenModel) -> bool {
    ||| start_in(t, breakout_tags())
    ||| (t matches TokenModel::StartTag { name, attributes, .. } && name == "font"@ && exists|i: int|
        0 <= i < attributes.len() && seq!["color"@, "face"@, "size"@].contains(#[trigger] attributes[i].name))
}

/// Whether the token breaks out of foreign content.
fn breaks_out_of_foreign_content(token: &Token) -> (res: bool)
    ensures
        res == breaks_out_spec(token@),
{
    let names: [&str; 44] = [
        "b", "big", "blockquote", "body", "br", "center", "code", "dd", "div", "dl", "dt", "em",
        "embed", "h1", "h2", "h3", "h4", "h5", "h6", "head", "hr", "i", "img", "li", "listing",
        "menu", "meta", "nobr", "ol", "p", "pre", "ruby", "s", "small", "span", "strong", "strike",
        "sub", "sup", "table", "tt", "u", "ul", "var",
    ];
    proof {
        assert(names@.map_values(|t: &str| t@) =~= breakout_tags());
    }
    if start_tag_named(token, &names) {
        return true;
    }
    let font_attributes: [&str; 3] = ["color", "face", "size"];
    proof {
        assert(font_attributes@.map_values(|t: &str| t@) =~= seq!["color"@, "face"@, "size"@]);
    }
    match token {
        Token::StartTag { name, attributes, .. } => {
            if !str_eq(name.as_str(), "font") {
                return false;
            }
            let ghost ms = attribute_models(attributes@);
            proof {
                assert(token@->StartTag_attributes == ms);
            }
            let mut i: usize = 0;
            while i < attributes.len()
                invariant
                    i <= attributes@.len(),
                    ms == attribute_models(attributes@),
                    token@ is StartTag,
                    token@->StartTag_attributes == ms,
                    token@->StartTag_name == "font"@,
                    font_attributes@.map_values(|t: &str| t@) == seq!["color"@, "face"@, "size"@],
                    forall|k: int| 0 <= k < i ==> !seq!["color"@, "face"@, "size"@].contains(#[trigger] ms[k].name),
                decreases attributes@.len() - i,
            {
                if one_of(attributes[i].name.as_str(), &font_attributes) {
                    proof {
                        assert(ms[i as int].name == attributes@[i as int].name@);
                        assert(seq!["color"@, "face"@, "size"@].contains(ms[i as int].name));
                    }
                    return true;
                }
                proof {
                    assert(ms[i as int].name == attributes@[i as int].name@);
                }
                i += 1;
            }
            false
        },
        _ => false,
    }
}

impl Parser {
    /// Node `r` is an element in the HTML namespace.
    fn is_html_element_node(&self, r: NodeRef) -> (res: bool)
        requires
            self.wf(),
            r < self.nodes().len(),
        ensures
            res == (self.nodes()[r as int].node_data() matches NodeData::Element { namespace, .. }
                && namespace == Some(Namespace::Html)),
    {
        match self.arena.get(r).data() {
            NodeData::Element { namespace, .. } => match namespace {
                Some(Namespace::Html) => true,
                _ => false,
            },
            _ => false,
        }
    }

    /// The token is processed by the rules of HTML content: the stack of
    /// open elements is empty, or the adjusted current node is an HTML
    /// element, or the token is the end of the file.
    fn token_is_not_in_foreign_context(&self, token: &Token) -> (res: bool)
        requires
            self.wf(),
        ensures
            res == self.in_html_content(token@),
    {
        match self.open_elements.adjusted_current_node() {
            None => true,
            Some(node) => {
                proof {
                    assert(self.is_element(self.open_elements@[self.open_elements@.len() - 1]));
                }
                self.is_html_element_node(node) || matches!(*token, Token::EndOfFile)
            },
        }
    }

    /// Pops elements until the current node is an HTML element, then
    /// reprocesses the token by the rules of HTML content.
    fn pop_invalid_elements(&mut self, token: &mut Token) -> (handled: bool)
        requires
            old(self).wf(),
        ensures
            token_kept_or_acknowledged(old(token)@, final(token)@),
            old(self).popped_to_html(old(token)@, *final(self), handled),
            dom_grows(old(self).nodes(), final(self).nodes()),
            handled && old(token)@ is EndOfFile ==> final(self).stack().len() == 0,
            handled ==> final(self).wf(),
    {
        let ghost s = old(self).stack();
        loop
            invariant
                self.wf(),
                self.nodes() == old(self).nodes(),
                s == old(self).stack(),
                *token == *old(token),
                self.stack().len() <= s.len(),
                self.stack() == s.take(self.stack().len() as int),
                *self == (Parser { open_elements: self.open_elements, ..*old(self) }),
                forall|j: int|
                    self.stack().len() <= j < s.len() ==> !old(self).html_element(#[trigger] s[j]),
            decreases self.stack().len(),
        {
            match self.open_elements.current_node() {
                None => {
                    proof {
                        assert forall|j: int| 0 <= j < s.len() implies !old(self).html_element(#[trigger] s[j]) by {}
                    }
                    return false;
                },
                Some(current) => {
                    proof {
                        assert(self.is_element(self.open_elements@[self.open_elements@.len() - 1]));
                    }
                    if self.is_html_element_node(current) {
                        let ghost mid = *self;
                        let handled = self.process_token(token);
                        proof {
                            let k = mid.stack().len() as int;
                            assert(s[k - 1] == mid.stack().last());
                            assert(mid.stack() == s.take(k));
                        }
                        return handled;
                    }
                    let ghost n = self.stack().len();
                    self.pop_current();
                    proof {
                        assert(self.stack() =~= s.take(n - 1));
                        assert(s[n - 1] == current);
                    }
                },
            }
        }
    }

    /// The rules for parsing tokens in foreign content.
    fn process_using_the_rules_for_foreign_content(&mut self, token: &mut Token) -> (handled: bool)
        requires
            old(self).wf(),
        ensures
            token_kept_or_acknowledged(old(token)@, final(token)@),
            !(breaks_out_spec(old(token)@) || end_in(old(token)@, seq!["br"@, "P"@])) ==> final(token)@ == if old(token)@ is StartTag
                && handled {
                acknowledged(old(token)@)
            } else {
                old(token)@
            },
            old(self).foreign_step(old(token)@, *final(self), handled),
            dom_grows(old(self).nodes(), final(self).nodes()),
            handled && old(token)@ is EndOfFile ==> final(self).stack().len() == 0,
            handled ==> final(self).wf(),
    {
        if character_of(token).is_some() || matches!(*token, Token::Comment { .. }) {
            // Inserting characters and comments is not supported.
            return false;
        }
        if matches!(*token, Token::Doctype { .. }) {
            return true;
        }
        let br_or_p: [&str; 2] = ["br", "P"];
        let script: [&str; 1] = ["script"];
        proof {
            assert(br_or_p@.map_values(|t: &str| t@) =~= seq!["br"@, "P"@]);
            assert(script@.map_values(|t: &str| t@) =~= seq!["script"@]);
        }
        if breaks_out_of_foreign_content(token) || end_tag_named(token, &br_or_p) {
            return self.pop_invalid_elements(token);
        }
        if let Token::StartTag { self_closing, .. } = token {
            let self_closing = *self_closing;
            proof {
                assert(old(token)@->StartTag_self_closing == self_closing);
            }
            if self.insert_html_element_for_token(token).is_none() {
                return false;
            }
            let ghost mid = *self;
            proof {
                assert(old(self).element_inserted(mid, old(token)@->StartTag_name));
            }
            proof {
                let name = old(token)@->StartTag_name;
                if name == "script"@ {
                    assert(seq!["script"@][0] == name);
                }
            }
            if self_closing {
                if start_tag_named(token, &script) {
                    token.acknowledge_self_closing_flag_if_set();
                } else {
                    self.pop_current();
                    proof {
                        assert(self.stack() =~= old(self).stack());
                    }
                    token.acknowledge_self_closing_flag_if_set();
                }
            }
            return true;
        }
        if end_tag_named(token, &script) {
            return false;
        }
        let token_tag_name = match token.tag_name() {
            Some(name) => name,
            None => return false,
        };
        let node = match self.open_elements.current_node() {
            Some(n) => n,
            None => return false,
        };
        let first = match self.open_elements.first() {
            Some(f) => f,
            None => return false,
        };
        if first == node {
            return true;
        }
        proof {
            assert(self.is_element(self.open_elements@[self.open_elements@.len() - 1]));
        }
        let tag = match self.arena.get(node).element_tag_name() {
            Some(t) => t,
            None => return false,
        };
        if lowercase_equals(tag, token_tag_name.as_str()) {
            proof {
                assert(self.open_elements@[self.open_elements@.len() - 1] == node);
                self.open_elements@.index_of_last_ensures(node);
            }
            self.pop_until_popped(node);
            proof {
                assert(self.stack() =~= old(self).stack().drop_last());
            }
            return true;
        }
        // Moving to the entry below the first one is out of bounds.
        false
    }

    /// The generic raw text and RCDATA element parsing algorithms.
    fn follow_generic_parsing_algorithm(&mut self, algorithm: GenericParsingAlgorithm, token: &Token) -> (handled: bool)
        requires
            old(self).wf(),
            old(self).mode() != InsertionMode::Text,
            token@ is StartTag,
        ensures
            old(self).generic_started(
                *final(self),
                handled,
                token@->StartTag_name,
                match algorithm {
                    GenericParsingAlgorithm::RawText => State::RawText,
                    GenericParsingAlgorithm::RcData => State::RcData,
                },
            ),
            dom_grows(old(self).nodes(), final(self).nodes()),
            handled ==> final(self).wf() && final(self).mode() == InsertionMode::Text,
    {
        if self.insert_html_element_for_token(token).is_none() {
            return false;
        }
        let ghost mid = *self;
        match algorithm {
            GenericParsingAlgorithm::RawText => {
                self.new_tokenizer_state = Some(State::RawText);
            },
            GenericParsingAlgorithm::RcData => {
                self.new_tokenizer_state = Some(State::RcData);
            },
        }
        self.original_insertion_mode = Some(self.insertion_mode);
        self.switch_insertion_mode_to(InsertionMode::Text);
        proof {
            assert(old(self).element_inserted(mid, token@->StartTag_name));
        }
        true
    }

    /// Runs the parser over the whole input. Gives the document node, or
    /// `None` where the input holds something that the tokenizer or the
    /// parser does not handle.
    pub fn parse(&mut self) -> (res: Option<NodeRef>)
        requires
            old(self).wf(),
        ensures
            dom_grows(old(self).nodes(), final(self).nodes()),
            res is Some ==> final(self).wf() && res == Some(final(self).document_spec()),
            res is Some ==> final(self).input_done(),
            res is Some && !old(self).input_done() ==> final(self).stack().len() == 0,
            res is Some ==> exists|trace: Seq<(Parser, TokenizerModel)>|
                parse_run(trace, *old(self)) && parse_finished(trace.last(), *final(self)),
            res is None ==> exists|trace: Seq<(Parser, TokenizerModel)>|
                parse_run(trace, *old(self)) && parse_failed(trace.last(), *final(self)),
    {
        let mut tokenizer = Tokenizer::new("");
        std::mem::swap(&mut tokenizer, &mut self.tokenizer);
        let _ = tokenizer.token_count();
        let ghost started_done = at_end(tokenizer@);
        let ghost mut trace: Seq<(Parser, TokenizerModel)> = seq![(*self, tokenizer@)];
        loop
            invariant
                self.wf(),
                dom_grows(old(self).nodes(), self.nodes()),
                tokenizer@.tokens.len() <= usize::MAX,
                started_done == old(self).input_done(),
                at_end(tokenizer@) ==> started_done || self.stack().len() == 0,
                parse_run(trace, *old(self)),
                trace.last() == (*self, tokenizer@),
            decreases usize::MAX - tokenizer@.tokens.len(),
        {
            let ghost before = self.nodes();
            let ghost p = *self;
            let ghost tz = tokenizer@;
            let mut token = match tokenizer.try_next_token(usize::MAX) {
                Some(Some(t)) => t.copy(),
                Some(None) => {
                    self.tokenizer = tokenizer;
                    proof {
                        assert(parse_finished(trace.last(), *self));
                    }
                    return Some(self.document);
                },
                None => {
                    self.tokenizer = tokenizer;
                    proof {
                        assert(parse_failed(trace.last(), *self));
                    }
                    return None;
                },
            };
            let ghost tz1 = tokenizer@;
            let ghost t = token@;
            let handled = if self.token_is_not_in_foreign_context(&token) {
                self.process_token(&mut token)
            } else {
                self.process_using_the_rules_for_foreign_content(&mut token)
            };
            let ghost mid = *self;
            proof {
                assert(p.dispatched(t, mid, handled));
                lemma_dom_grows_trans(old(self).nodes(), before, self.nodes());
            }
            if !handled {
                self.tokenizer = tokenizer;
                proof {
                    assert(parse_round(p, tz, mid, tz1, false));
                    assert(parse_failed(trace.last(), *self));
                }
                return None;
            }
            if let Some(state) = self.new_tokenizer_state {
                tokenizer.switch_to(state);
                self.new_tokenizer_state = None;
            }
            proof {
                assert(*self == (Parser { new_tokenizer_state: None, ..mid }));
                assert(parse_round(p, tz, *self, tokenizer@, true));
                let next = trace.push((*self, tokenizer@));
                assert forall|i: int| 0 <= i < next.len() - 1 implies #[trigger] parse_round(
                    next[i].0,
                    next[i].1,
                    next[i + 1].0,
                    next[i + 1].1,
                    true,
                ) by {
                    if i < trace.len() - 1 {
                        assert(next[i] == trace[i]);
                        assert(next[i + 1] == trace[i + 1]);
                    }
                }
                trace = next;
            }
        }
    }
}

} // verus!

verus! {

/// In the "in body" mode, a start tag of a void element (area, br, embed,
/// img, keygen, wbr, input) appends a new element with that name to the
/// current node and leaves the stack of open elements as it was: the
/// element never becomes the current node, so it never gets children.
pub proof fn lemma_void_elements_are_not_left_open(p: Parser, t: TokenModel, after: Parser, handled: bool)
    requires
        p.processed_by(InsertionMode::InBody, t, after, handled),
        p.stack().len() > 0,
        t matches TokenModel::StartTag { name, .. } && seq![
            "area"@,
            "br"@,
            "embed"@,
            "img"@,
            "keygen"@,
            "wbr"@,
            "input"@,
        ].contains(name),
    ensures
        handled,
        after.stack() == p.stack(),
        appended_element(p.nodes(), after.nodes(), p.stack().last() as int, t->StartTag_name),
{
    lemma_void_tag_rule(t, p.scripting_flag());
}

/// `s` is the name of a void element.
pub open spec fn is_void_name(s: Seq<char>) -> bool {
    s == "area"@ || s == "br"@ || s == "embed"@ || s == "img"@ || s == "keygen"@ || s == "wbr"@ || s == "input"@
}

/// The list of void element names holds exactly the void names.
proof fn lemma_void_names(name: Seq<char>)
    ensures
        seq!["area"@, "br"@, "embed"@, "img"@, "keygen"@, "wbr"@, "input"@].contains(name) <==> is_void_name(name),
{
    let l = seq!["area"@, "br"@, "embed"@, "img"@, "keygen"@, "wbr"@, "input"@];
    if l.contains(name) {
        let k = choose|k: int| 0 <= k < l.len() && l[k] == name;
    }
    if is_void_name(name) {
        if name == "area"@ {
            assert(l[0] == name);
        } else if name == "br"@ {
            assert(l[1] == name);
        } else if name == "embed"@ {
            assert(l[2] == name);
        } else if name == "img"@ {
            assert(l[3] == name);
        } else if name == "keygen"@ {
            assert(l[4] == name);
        } else if name == "wbr"@ {
            assert(l[5] == name);
        } else {
            assert(l[6] == name);
        }
    }
}

/// A start tag of a void element falls under the void element rule of the
/// "in body" mode.
proof fn lemma_void_tag_rule(t: TokenModel, scripting: bool)
    requires
        t matches TokenModel::StartTag { name, .. } && seq![
            "area"@,
            "br"@,
            "embed"@,
            "img"@,
            "keygen"@,
            "wbr"@,
            "input"@,
        ].contains(name),
    ensures
        body_rule(t, scripting) == BodyRule::Void,
{
    reveal_strlit("a");
    reveal_strlit("address");
    reveal_strlit("applet");
    reveal_strlit("area");
    reveal_strlit("article");
    reveal_strlit("aside");
    reveal_strlit("b");
    reveal_strlit("base");
    reveal_strlit("basefont");
    reveal_strlit("bgsound");
    reveal_strlit("big");
    reveal_strlit("blockquote");
    reveal_strlit("body");
    reveal_strlit("br");
    reveal_strlit("button");
    reveal_strlit("center");
    reveal_strlit("code");
    reveal_strlit("dd");
    reveal_strlit("details");
    reveal_strlit("dialog");
    reveal_strlit("dir");
    reveal_strlit("div");
    reveal_strlit("dl");
    reveal_strlit("dt");
    reveal_strlit("em");
    reveal_strlit("embed");
    reveal_strlit("fieldset");
    reveal_strlit("figcaption");
    reveal_strlit("figure");
    reveal_strlit("font");
    reveal_strlit("footer");
    reveal_strlit("form");
    reveal_strlit("frameset");
    reveal_strlit("h1");
    reveal_strlit("h2");
    reveal_strlit("h3");
    reveal_strlit("h4");
    reveal_strlit("h5");
    reveal_strlit("h6");
    reveal_strlit("header");
    reveal_strlit("hgroup");
    reveal_strlit("html");
    reveal_strlit("i");
    reveal_strlit("img");
    reveal_strlit("input");
    reveal_strlit("keygen");
    reveal_strlit("li");
    reveal_strlit("link");
    reveal_strlit("listing");
    reveal_strlit("main");
    reveal_strlit("marquee");
    reveal_strlit("menu");
    reveal_strlit("meta");
    reveal_strlit("nav");
    reveal_strlit("nobr");
    reveal_strlit("noframes");
    reveal_strlit("object");
    reveal_strlit("ol");
    reveal_strlit("p");
    reveal_strlit("plaintext");
    reveal_strlit("pre");
    reveal_strlit("s");
    reveal_strlit("script");
    reveal_strlit("search");
    reveal_strlit("section");
    reveal_strlit("small");
    reveal_strlit("strike");
    reveal_strlit("strong");
    reveal_strlit("style");
    reveal_strlit("summary");
    reveal_strlit("table");
    reveal_strlit("template");
    reveal_strlit("title");
    reveal_strlit("tt");
    reveal_strlit("u");
    reveal_strlit("ul");
    reveal_strlit("wbr");
    let name = t->StartTag_name;
    lemma_void_names(name);
    assert forall|i: int| 0 <= i < head_start_tags().len() implies !is_void_name(#[trigger] head_start_tags()[i]) by {
        if i == 0 {
            assert(head_start_tags()[0] == "base"@);
            assert("base"@[0] != "area"@[0]);
            assert("base"@.len() != "br"@.len());
            assert("base"@.len() != "embed"@.len());
            assert("base"@.len() != "img"@.len());
            assert("base"@.len() != "keygen"@.len());
            assert("base"@.len() != "wbr"@.len());
            assert("base"@.len() != "input"@.len());
        } else if i == 1 {
            assert(head_start_tags()[1] == "basefont"@);
            assert("basefont"@.len() != "area"@.len());
            assert("basefont"@.len() != "br"@.len());
            assert("basefont"@.len() != "embed"@.len());
            assert("basefont"@.len() != "img"@.len());
            assert("basefont"@.len() != "keygen"@.len());
            assert("basefont"@.len() != "wbr"@.len());
            assert("basefont"@.len() != "input"@.len());
        } else if i == 2 {
            assert(head_start_tags()[2] == "bgsound"@);
            assert("bgsound"@.len() != "area"@.len());
            assert("bgsound"@.len() != "br"@.len());
            assert("bgsound"@.len() != "embed"@.len());
            assert("bgsound"@.len() != "img"@.len());
            assert("bgsound"@.len() != "keygen"@.len());
            assert("bgsound"@.len() != "wbr"@.len());
            assert("bgsound"@.len() != "input"@.len());
        } else if i == 3 {
            assert(head_start_tags()[3] == "link"@);
            assert("link"@[0] != "area"@[0]);
            assert("link"@.len() != "br"@.len());
            assert("link"@.len() != "embed"@.len());
            assert("link"@.len() != "img"@.len());
            assert("link"@.len() != "keygen"@.len());
            assert("link"@.len() != "wbr"@.len());
            assert("link"@.len() != "input"@.len());
        } else if i == 4 {
            assert(head_start_tags()[4] == "meta"@);
            assert("meta"@[0] != "area"@[0]);
            assert("meta"@.len() != "br"@.len());
            assert("meta"@.len() != "embed"@.len());
            assert("meta"@.len() != "img"@.len());
            assert("meta"@.len() != "keygen"@.len());
            assert("meta"@.len() != "wbr"@.len());
            assert("meta"@.len() != "input"@.len());
        } else if i == 5 {
            assert(head_start_tags()[5] == "noframes"@);
            assert("noframes"@.len() != "area"@.len());
            assert("noframes"@.len() != "br"@.len());
            assert("noframes"@.len() != "embed"@.len());
            assert("noframes"@.len() != "img"@.len());
            assert("noframes"@.len() != "keygen"@.len());
            assert("noframes"@.len() != "wbr"@.len());
            assert("noframes"@.len() != "input"@.len());
        } else if i == 6 {
            assert(head_start_tags()[6] == "script"@);
            assert("script"@.len() != "area"@.len());
            assert("script"@.len() != "br"@.len());
            assert("script"@.len() != "embed"@.len());
            assert("script"@.len() != "img"@.len());
            assert("script"@[0] != "keygen"@[0]);
            assert("script"@.len() != "wbr"@.len());
            assert("script"@.len() != "input"@.len());
        } else if i == 7 {
            assert(head_start_tags()[7] == "style"@);
            assert("style"@.len() != "area"@.len());
            assert("style"@.len() != "br"@.len());
            assert("style"@[0] != "embed"@[0]);
            assert("style"@.len() != "img"@.len());
            assert("style"@.len() != "keygen"@.len());
            assert("style"@.len() != "wbr"@.len());
            assert("style"@[0] != "input"@[0]);
        } else if i == 8 {
            assert(head_start_tags()[8] == "template"@);
            assert("template"@.len() != "area"@.len());
            assert("template"@.len() != "br"@.len());
            assert("template"@.len() != "embed"@.len());
            assert("template"@.len() != "img"@.len());
            assert("template"@.len() != "keygen"@.len());
            assert("template"@.len() != "wbr"@.len());
            assert("template"@.len() != "input"@.len());
        } else if i == 9 {
            assert(head_start_tags()[9] == "title"@);
            assert("title"@.len() != "area"@.len());
            assert("title"@.len() != "br"@.len());
            assert("title"@[0] != "embed"@[0]);
            assert("title"@.len() != "img"@.len());
            assert("title"@.len() != "keygen"@.len());
            assert("title"@.len() != "wbr"@.len());
            assert("title"@[0] != "input"@[0]);
        }
    }
    if head_start_tags().contains(name) {
        let i = choose|i: int| 0 <= i < head_start_tags().len() && head_start_tags()[i] == name;
        assert(!is_void_name(head_start_tags()[i]));
    }
    assert forall|i: int| 0 <= i < start_body_or_frameset_tags().len() implies !is_void_name(#[trigger] start_body_or_frameset_tags()[i]) by {
        if i == 0 {
            assert(start_body_or_frameset_tags()[0] == "body"@);
            assert("body"@[0] != "area"@[0]);
            assert("body"@.len() != "br"@.len());
            assert("body"@.len() != "embed"@.len());
            assert("body"@.len() != "img"@.len());
            assert("body"@.len() != "keygen"@.len());
            assert("body"@.len() != "wbr"@.len());
            assert("body"@.len() != "input"@.len());
        } else if i == 1 {
            assert(start_body_or_frameset_tags()[1] == "frameset"@);
            assert("frameset"@.len() != "area"@.len());
            assert("frameset"@.len() != "br"@.len());
            assert("frameset"@.len() != "embed"@.len());
            assert("frameset"@.len() != "img"@.len());
            assert("frameset"@.len() != "keygen"@.len());
            assert("frameset"@.len() != "wbr"@.len());
            assert("frameset"@.len() != "input"@.len());
        }
    }
    if start_body_or_frameset_tags().contains(name) {
        let i = choose|i: int| 0 <= i < start_body_or_frameset_tags().len() && start_body_or_frameset_tags()[i] == name;
        assert(!is_void_name(start_body_or_frameset_tags()[i]));
    }
    assert forall|i: int| 0 <= i < start_block_tags().len() implies !is_void_name(#[trigger] start_block_tags()[i]) by {
        if i == 0 {
            assert(start_block_tags()[0] == "address"@);
            assert("address"@.len() != "area"@.len());
            assert("address"@.len() != "br"@.len());
            assert("address"@.len() != "embed"@.len());
            assert("address"@.len() != "img"@.len());
            assert("address"@.len() != "keygen"@.len());
            assert("address"@.len() != "wbr"@.len());
            assert("address"@.len() != "input"@.len());
        } else if i == 1 {
            assert(start_block_tags()[1] == "article"@);
            assert("article"@.len() != "area"@.len());
            assert("article"@.len() != "br"@.len());
            assert("article"@.len() != "embed"@.len());
            assert("article"@.len() != "img"@.len());
            assert("article"@.len() != "keygen"@.len());
            assert("article"@.len() != "wbr"@.len());
            assert("article"@.len() != "input"@.len());
        } else if i == 2 {
            assert(start_block_tags()[2] == "aside"@);
            assert("aside"@.len() != "area"@.len());
            assert("aside"@.len() != "br"@.len());
            assert("aside"@[0] != "embed"@[0]);
            assert("aside"@.len() != "img"@.len());
            assert("aside"@.len() != "keygen"@.len());
            assert("aside"@.len() != "wbr"@.len());
            assert("aside"@[0] != "input"@[0]);
        } else if i == 3 {
            assert(start_block_tags()[3] == "blockquote"@);
            assert("blockquote"@.len() != "area"@.len());
            assert("blockquote"@.len() != "br"@.len());
            assert("blockquote"@.len() != "embed"@.len());
            assert("blockquote"@.len() != "img"@.len());
            assert("blockquote"@.len() != "keygen"@.len());
            assert("blockquote"@.len() != "wbr"@.len());
            assert("blockquote"@.len() != "input"@.len());
        } else if i == 4 {
            assert(start_block_tags()[4] == "center"@);
            assert("center"@.len() != "area"@.len());
            assert("center"@.len() != "br"@.len());
            assert("center"@.len() != "embed"@.len());
            assert("center"@.len() != "img"@.len());
            assert("center"@[0] != "keygen"@[0]);
            assert("center"@.len() != "wbr"@.len());
            assert("center"@.len() != "input"@.len());
        } else if i == 5 {
            assert(start_block_tags()[5] == "details"@);
            assert("details"@.len() != "area"@.len());
            assert("details"@.len() != "br"@.len());
            assert("details"@.len() != "embed"@.len());
            assert("details"@.len() != "img"@.len());
            assert("details"@.len() != "keygen"@.len());
            assert("details"@.len() != "wbr"@.len());
            assert("details"@.len() != "input"@.len());
        } else if i == 6 {
            assert(start_block_tags()[6] == "dialog"@);
            assert("dialog"@.len() != "area"@.len());
            assert("dialog"@.len() != "br"@.len());
            assert("dialog"@.len() != "embed"@.len());
            assert("dialog"@.len() != "img"@.len());
            assert("dialog"@[0] != "keygen"@[0]);
            assert("dialog"@.len() != "wbr"@.len());
            assert("dialog"@.len() != "input"@.len());
        } else if i == 7 {
            assert(start_block_tags()[7] == "dir"@);
            assert("dir"@.len() != "area"@.len());
            assert("dir"@.len() != "br"@.len());
            assert("dir"@.len() != "embed"@.len());
            assert("dir"@[0] != "img"@[0]);
            assert("dir"@.len() != "keygen"@.len());
            assert("dir"@[0] != "wbr"@[0]);
            assert("dir"@.len() != "input"@.len());
        } else if i == 8 {
            assert(start_block_tags()[8] == "div"@);
            assert("div"@.len() != "area"@.len());
            assert("div"@.len() != "br"@.len());
            assert("div"@.len() != "embed"@.len());
            assert("div"@[0] != "img"@[0]);
            assert("div"@.len() != "keygen"@.len());
            assert("div"@[0] != "wbr"@[0]);
            assert("div"@.len() != "input"@.len());
        } else if i == 9 {
            assert(start_block_tags()[9] == "dl"@);
            assert("dl"@.len() != "area"@.len());
            assert("dl"@[0] != "br"@[0]);
            assert("dl"@.len() != "embed"@.len());
            assert("dl"@.len() != "img"@.len());
            assert("dl"@.len() != "keygen"@.len());
            assert("dl"@.len() != "wbr"@.len());
            assert("dl"@.len() != "input"@.len());
        } else if i == 10 {
            assert(start_block_tags()[10] == "fieldset"@);
            assert("fieldset"@.len() != "area"@.len());
            assert("fieldset"@.len() != "br"@.len());
            assert("fieldset"@.len() != "embed"@.len());
            assert("fieldset"@.len() != "img"@.len());
            assert("fieldset"@.len() != "keygen"@.len());
            assert("fieldset"@.len() != "wbr"@.len());
            assert("fieldset"@.len() != "input"@.len());
        } else if i == 11 {
            assert(start_block_tags()[11] == "figcaption"@);
            assert("figcaption"@.len() != "area"@.len());
            assert("figcaption"@.len() != "br"@.len());
            assert("figcaption"@.len() != "embed"@.len());
            assert("figcaption"@.len() != "img"@.len());
            assert("figcaption"@.len() != "keygen"@.len());
            assert("figcaption"@.len() != "wbr"@.len());
            assert("figcaption"@.len() != "input"@.len());
        } else if i == 12 {
            assert(start_block_tags()[12] == "figure"@);
            assert("figure"@.len() != "area"@.len());
            assert("figure"@.len() != "br"@.len());
            assert("figure"@.len() != "embed"@.len());
            assert("figure"@.len() != "img"@.len());
            assert("figure"@[0] != "keygen"@[0]);
            assert("figure"@.len() != "wbr"@.len());
            assert("figure"@.len() != "input"@.len());
        } else if i == 13 {
            assert(start_block_tags()[13] == "footer"@);
            assert("footer"@.len() != "area"@.len());
            assert("footer"@.len() != "br"@.len());
            assert("footer"@.len() != "embed"@.len());
            assert("footer"@.len() != "img"@.len());
            assert("footer"@[0] != "keygen"@[0]);
            assert("footer"@.len() != "wbr"@.len());
            assert("footer"@.len() != "input"@.len());
        } else if i == 14 {
            assert(start_block_tags()[14] == "header"@);
            assert("header"@.len() != "area"@.len());
            assert("header"@.len() != "br"@.len());
            assert("header"@.len() != "embed"@.len());
            assert("header"@.len() != "img"@.len());
            assert("header"@[0] != "keygen"@[0]);
            assert("header"@.len() != "wbr"@.len());
            assert("header"@.len() != "input"@.len());
        } else if i == 15 {
            assert(start_block_tags()[15] == "hgroup"@);
            assert("hgroup"@.len() != "area"@.len());
            assert("hgroup"@.len() != "br"@.len());
            assert("hgroup"@.len() != "embed"@.len());
            assert("hgroup"@.len() != "img"@.len());
            assert("hgroup"@[0] != "keygen"@[0]);
            assert("hgroup"@.len() != "wbr"@.len());
            assert("hgroup"@.len() != "input"@.len());
        } else if i == 16 {
            assert(start_block_tags()[16] == "main"@);
            assert("main"@[0] != "area"@[0]);
            assert("main"@.len() != "br"@.len());
            assert("main"@.len() != "embed"@.len());
            assert("main"@.len() != "img"@.len());
            assert("main"@.len() != "keygen"@.len());
            assert("main"@.len() != "wbr"@.len());
            assert("main"@.len() != "input"@.len());
        } else if i == 17 {
            assert(start_block_tags()[17] == "menu"@);
            assert("menu"@[0] != "area"@[0]);
            assert("menu"@.len() != "br"@.len());
            assert("menu"@.len() != "embed"@.len());
            assert("menu"@.len() != "img"@.len());
            assert("menu"@.len() != "keygen"@.len());
            assert("menu"@.len() != "wbr"@.len());
            assert("menu"@.len() != "input"@.len());
        } else if i == 18 {
            assert(start_block_tags()[18] == "nav"@);
            assert("nav"@.len() != "area"@.len());
            assert("nav"@.len() != "br"@.len());
            assert("nav"@.len() != "embed"@.len());
            assert("nav"@[0] != "img"@[0]);
            assert("nav"@.len() != "keygen"@.len());
            assert("nav"@[0] != "wbr"@[0]);
            assert("nav"@.len() != "input"@.len());
        } else if i == 19 {
            assert(start_block_tags()[19] == "ol"@);
            assert("ol"@.len() != "area"@.len());
            assert("ol"@[0] != "br"@[0]);
            assert("ol"@.len() != "embed"@.len());
            assert("ol"@.len() != "img"@.len());
            assert("ol"@.len() != "keygen"@.len());
            assert("ol"@.len() != "wbr"@.len());
            assert("ol"@.len() != "input"@.len());
        } else if i == 20 {
            assert(start_block_tags()[20] == "p"@);
            assert("p"@.len() != "area"@.len());
            assert("p"@.len() != "br"@.len());
            assert("p"@.len() != "embed"@.len());
            assert("p"@.len() != "img"@.len());
            assert("p"@.len() != "keygen"@.len());
            assert("p"@.len() != "wbr"@.len());
            assert("p"@.len() != "input"@.len());
        } else if i == 21 {
            assert(start_block_tags()[21] == "search"@);
            assert("search"@.len() != "area"@.len());
            assert("search"@.len() != "br"@.len());
            assert("search"@.len() != "embed"@.len());
            assert("search"@.len() != "img"@.len());
            assert("search"@[0] != "keygen"@[0]);
            assert("search"@.len() != "wbr"@.len());
            assert("search"@.len() != "input"@.len());
        } else if i == 22 {
            assert(start_block_tags()[22] == "section"@);
            assert("section"@.len() != "area"@.len());
            assert("section"@.len() != "br"@.len());
            assert("section"@.len() != "embed"@.len());
            assert("section"@.len() != "img"@.len());
            assert("section"@.len() != "keygen"@.len());
            assert("section"@.len() != "wbr"@.len());
            assert("section"@.len() != "input"@.len());
        } else if i == 23 {
            assert(start_block_tags()[23] == "summary"@);
            assert("summary"@.len() != "area"@.len());
            assert("summary"@.len() != "br"@.len());
            assert("summary"@.len() != "embed"@.len());
            assert("summary"@.len() != "img"@.len());
            assert("summary"@.len() != "keygen"@.len());
            assert("summary"@.len() != "wbr"@.len());
            assert("summary"@.len() != "input"@.len());
        } else if i == 24 {
            assert(start_block_tags()[24] == "ul"@);
            assert("ul"@.len() != "area"@.len());
            assert("ul"@[0] != "br"@[0]);
            assert("ul"@.len() != "embed"@.len());
            assert("ul"@.len() != "img"@.len());
            assert("ul"@.len() != "keygen"@.len());
            assert("ul"@.len() != "wbr"@.len());
            assert("ul"@.len() != "input"@.len());
        }
    }
    if start_block_tags().contains(name) {
        let i = choose|i: int| 0 <= i < start_block_tags().len() && start_block_tags()[i] == name;
        assert(!is_void_name(start_block_tags()[i]));
    }
    assert forall|i: int| 0 <= i < start_heading_or_pre_tags().len() implies !is_void_name(#[trigger] start_heading_or_pre_tags()[i]) by {
        if i == 0 {
            assert(start_heading_or_pre_tags()[0] == "h1"@);
            assert("h1"@.len() != "area"@.len());
            assert("h1"@[0] != "br"@[0]);
            assert("h1"@.len() != "embed"@.len());
            assert("h1"@.len() != "img"@.len());
            assert("h1"@.len() != "keygen"@.len());
            assert("h1"@.len() != "wbr"@.len());
            assert("h1"@.len() != "input"@.len());
        } else if i == 1 {
            assert(start_heading_or_pre_tags()[1] == "h2"@);
            assert("h2"@.len() != "area"@.len());
            assert("h2"@[0] != "br"@[0]);
            assert("h2"@.len() != "embed"@.len());
            assert("h2"@.len() != "img"@.len());
            assert("h2"@.len() != "keygen"@.len());
            assert("h2"@.len() != "wbr"@.len());
            assert("h2"@.len() != "input"@.len());
        } else if i == 2 {
            assert(start_heading_or_pre_tags()[2] == "h3"@);
            assert("h3"@.len() != "area"@.len());
            assert("h3"@[0] != "br"@[0]);
            assert("h3"@.len() != "embed"@.len());
            assert("h3"@.len() != "img"@.len());
            assert("h3"@.len() != "keygen"@.len());
            assert("h3"@.len() != "wbr"@.len());
            assert("h3"@.len() != "input"@.len());
        } else if i == 3 {
            assert(start_heading_or_pre_tags()[3] == "h4"@);
            assert("h4"@.len() != "area"@.len());
            assert("h4"@[0] != "br"@[0]);
            assert("h4"@.len() != "embed"@.len());
            assert("h4"@.len() != "img"@.len());
            assert("h4"@.len() != "keygen"@.len());
            assert("h4"@.len() != "wbr"@.len());
            assert("h4"@.len() != "input"@.len());
        } else if i == 4 {
            assert(start_heading_or_pre_tags()[4] == "h5"@);
            assert("h5"@.len() != "area"@.len());
            assert("h5"@[0] != "br"@[0]);
            assert("h5"@.len() != "embed"@.len());
            assert("h5"@.len() != "img"@.len());
            assert("h5"@.len() != "keygen"@.len());
            assert("h5"@.len() != "wbr"@.len());
            assert("h5"@.len() != "input"@.len());
        } else if i == 5 {
            assert(start_heading_or_pre_tags()[5] == "h6"@);
            assert("h6"@.len() != "area"@.len());
            assert("h6"@[0] != "br"@[0]);
            assert("h6"@.len() != "embed"@.len());
            assert("h6"@.len() != "img"@.len());
            assert("h6"@.len() != "keygen"@.len());
            assert("h6"@.len() != "wbr"@.len());
            assert("h6"@.len() != "input"@.len());
        } else if i == 6 {
            assert(start_heading_or_pre_tags()[6] == "pre"@);
            assert("pre"@.len() != "area"@.len());
            assert("pre"@.len() != "br"@.len());
            assert("pre"@.len() != "embed"@.len());
            assert("pre"@[0] != "img"@[0]);
            assert("pre"@.len() != "keygen"@.len());
            assert("pre"@[0] != "wbr"@[0]);
            assert("pre"@.len() != "input"@.len());
        } else if i == 7 {
            assert(start_heading_or_pre_tags()[7] == "listing"@);
            assert("listing"@.len() != "area"@.len());
            assert("listing"@.len() != "br"@.len());
            assert("listing"@.len() != "embed"@.len());
            assert("listing"@.len() != "img"@.len());
            assert("listing"@.len() != "keygen"@.len());
            assert("listing"@.len() != "wbr"@.len());
            assert("listing"@.len() != "input"@.len());
        }
    }
    if start_heading_or_pre_tags().contains(name) {
        let i = choose|i: int| 0 <= i < start_heading_or_pre_tags().len() && start_heading_or_pre_tags()[i] == name;
        assert(!is_void_name(start_heading_or_pre_tags()[i]));
    }
    assert forall|i: int| 0 <= i < start_form_tags().len() implies !is_void_name(#[trigger] start_form_tags()[i]) by {
        if i == 0 {
            assert(start_form_tags()[0] == "form"@);
            assert("form"@[0] != "area"@[0]);
            assert("form"@.len() != "br"@.len());
            assert("form"@.len() != "embed"@.len());
            assert("form"@.len() != "img"@.len());
            assert("form"@.len() != "keygen"@.len());
            assert("form"@.len() != "wbr"@.len());
            assert("form"@.len() != "input"@.len());
        }
    }
    if start_form_tags().contains(name) {
        let i = choose|i: int| 0 <= i < start_form_tags().len() && start_form_tags()[i] == name;
        assert(!is_void_name(start_form_tags()[i]));
    }
    assert forall|i: int| 0 <= i < start_li_tags().len() implies !is_void_name(#[trigger] start_li_tags()[i]) by {
        if i == 0 {
            assert(start_li_tags()[0] == "li"@);
            assert("li"@.len() != "area"@.len());
            assert("li"@[0] != "br"@[0]);
            assert("li"@.len() != "embed"@.len());
            assert("li"@.len() != "img"@.len());
            assert("li"@.len() != "keygen"@.len());
            assert("li"@.len() != "wbr"@.len());
            assert("li"@.len() != "input"@.len());
        }
    }
    if start_li_tags().contains(name) {
        let i = choose|i: int| 0 <= i < start_li_tags().len() && start_li_tags()[i] == name;
        assert(!is_void_name(start_li_tags()[i]));
    }
    assert forall|i: int| 0 <= i < start_description_or_button_tags().len() implies !is_void_name(#[trigger] start_description_or_button_tags()[i]) by {
        if i == 0 {
            assert(start_description_or_button_tags()[0] == "dd"@);
            assert("dd"@.len() != "area"@.len());
            assert("dd"@[0] != "br"@[0]);
            assert("dd"@.len() != "embed"@.len());
            assert("dd"@.len() != "img"@.len());
            assert("dd"@.len() != "keygen"@.len());
            assert("dd"@.len() != "wbr"@.len());
            assert("dd"@.len() != "input"@.len());
        } else if i == 1 {
            assert(start_description_or_button_tags()[1] == "dt"@);
            assert("dt"@.len() != "area"@.len());
            assert("dt"@[0] != "br"@[0]);
            assert("dt"@.len() != "embed"@.len());
            assert("dt"@.len() != "img"@.len());
            assert("dt"@.len() != "keygen"@.len());
            assert("dt"@.len() != "wbr"@.len());
            assert("dt"@.len() != "input"@.len());
        } else if i == 2 {
            assert(start_description_or_button_tags()[2] == "plaintext"@);
            assert("plaintext"@.len() != "area"@.len());
            assert("plaintext"@.len() != "br"@.len());
            assert("plaintext"@.len() != "embed"@.len());
            assert("plaintext"@.len() != "img"@.len());
            assert("plaintext"@.len() != "keygen"@.len());
            assert("plaintext"@.len() != "wbr"@.len());
            assert("plaintext"@.len() != "input"@.len());
        } else if i == 3 {
            assert(start_description_or_button_tags()[3] == "button"@);
            assert("button"@.len() != "area"@.len());
            assert("button"@.len() != "br"@.len());
            assert("button"@.len() != "embed"@.len());
            assert("button"@.len() != "img"@.len());
            assert("button"@[0] != "keygen"@[0]);
            assert("button"@.len() != "wbr"@.len());
            assert("button"@.len() != "input"@.len());
        }
    }
    if start_description_or_button_tags().contains(name) {
        let i = choose|i: int| 0 <= i < start_description_or_button_tags().len() && start_description_or_button_tags()[i] == name;
        assert(!is_void_name(start_description_or_button_tags()[i]));
    }
    assert forall|i: int| 0 <= i < start_a_tags().len() implies !is_void_name(#[trigger] start_a_tags()[i]) by {
        if i == 0 {
            assert(start_a_tags()[0] == "a"@);
            assert("a"@.len() != "area"@.len());
            assert("a"@.len() != "br"@.len());
            assert("a"@.len() != "embed"@.len());
            assert("a"@.len() != "img"@.len());
            assert("a"@.len() != "keygen"@.len());
            assert("a"@.len() != "wbr"@.len());
            assert("a"@.len() != "input"@.len());
        }
    }
    if start_a_tags().contains(name) {
        let i = choose|i: int| 0 <= i < start_a_tags().len() && start_a_tags()[i] == name;
        assert(!is_void_name(start_a_tags()[i]));
    }
    assert forall|i: int| 0 <= i < start_formatting_tags().len() implies !is_void_name(#[trigger] start_formatting_tags()[i]) by {
        if i == 0 {
            assert(start_formatting_tags()[0] == "b"@);
            assert("b"@.len() != "area"@.len());
            assert("b"@.len() != "br"@.len());
            assert("b"@.len() != "embed"@.len());
            assert("b"@.len() != "img"@.len());
            assert("b"@.len() != "keygen"@.len());
            assert("b"@.len() != "wbr"@.len());
            assert("b"@.len() != "input"@.len());
        } else if i == 1 {
            assert(start_formatting_tags()[1] == "big"@);
            assert("big"@.len() != "area"@.len());
            assert("big"@.len() != "br"@.len());
            assert("big"@.len() != "embed"@.len());
            assert("big"@[0] != "img"@[0]);
            assert("big"@.len() != "keygen"@.len());
            assert("big"@[0] != "wbr"@[0]);
            assert("big"@.len() != "input"@.len());
        } else if i == 2 {
            assert(start_formatting_tags()[2] == "code"@);
            assert("code"@[0] != "area"@[0]);
            assert("code"@.len() != "br"@.len());
            assert("code"@.len() != "embed"@.len());
            assert("code"@.len() != "img"@.len());
            assert("code"@.len() != "keygen"@.len());
            assert("code"@.len() != "wbr"@.len());
            assert("code"@.len() != "input"@.len());
        } else if i == 3 {
            assert(start_formatting_tags()[3] == "em"@);
            assert("em"@.len() != "area"@.len());
            assert("em"@[0] != "br"@[0]);
            assert("em"@.len() != "embed"@.len());
            assert("em"@.len() != "img"@.len());
            assert("em"@.len() != "keygen"@.len());
            assert("em"@.len() != "wbr"@.len());
            assert("em"@.len() != "input"@.len());
        } else if i == 4 {
            assert(start_formatting_tags()[4] == "font"@);
            assert("font"@[0] != "area"@[0]);
            assert("font"@.len() != "br"@.len());
            assert("font"@.len() != "embed"@.len());
            assert("font"@.len() != "img"@.len());
            assert("font"@.len() != "keygen"@.len());
            assert("font"@.len() != "wbr"@.len());
            assert("font"@.len() != "input"@.len());
        } else if i == 5 {
            assert(start_formatting_tags()[5] == "i"@);
            assert("i"@.len() != "area"@.len());
            assert("i"@.len() != "br"@.len());
            assert("i"@.len() != "embed"@.len());
            assert("i"@.len() != "img"@.len());
            assert("i"@.len() != "keygen"@.len());
            assert("i"@.len() != "wbr"@.len());
            assert("i"@.len() != "input"@.len());
        } else if i == 6 {
            assert(start_formatting_tags()[6] == "s"@);
            assert("s"@.len() != "area"@.len());
            assert("s"@.len() != "br"@.len());
            assert("s"@.len() != "embed"@.len());
            assert("s"@.len() != "img"@.len());
            assert("s"@.len() != "keygen"@.len());
            assert("s"@.len() != "wbr"@.len());
            assert("s"@.len() != "input"@.len());
        } else if i == 7 {
            assert(start_formatting_tags()[7] == "small"@);
            assert("small"@.len() != "area"@.len());
            assert("small"@.len() != "br"@.len());
            assert("small"@[0] != "embed"@[0]);
            assert("small"@.len() != "img"@.len());
            assert("small"@.len() != "keygen"@.len());
            assert("small"@.len() != "wbr"@.len());
            assert("small"@[0] != "input"@[0]);
        } else if i == 8 {
            assert(start_formatting_tags()[8] == "strike"@);
            assert("strike"@.len() != "area"@.len());
            assert("strike"@.len() != "br"@.len());
            assert("strike"@.len() != "embed"@.len());
            assert("strike"@.len() != "img"@.len());
            assert("strike"@[0] != "keygen"@[0]);
            assert("strike"@.len() != "wbr"@.len());
            assert("strike"@.len() != "input"@.len());
        } else if i == 9 {
            assert(start_formatting_tags()[9] == "strong"@);
            assert("strong"@.len() != "area"@.len());
            assert("strong"@.len() != "br"@.len());
            assert("strong"@.len() != "embed"@.len());
            assert("strong"@.len() != "img"@.len());
            assert("strong"@[0] != "keygen"@[0]);
            assert("strong"@.len() != "wbr"@.len());
            assert("strong"@.len() != "input"@.len());
        } else if i == 10 {
            assert(start_formatting_tags()[10] == "tt"@);
            assert("tt"@.len() != "area"@.len());
            assert("tt"@[0] != "br"@[0]);
            assert("tt"@.len() != "embed"@.len());
            assert("tt"@.len() != "img"@.len());
            assert("tt"@.len() != "keygen"@.len());
            assert("tt"@.len() != "wbr"@.len());
            assert("tt"@.len() != "input"@.len());
        } else if i == 11 {
            assert(start_formatting_tags()[11] == "u"@);
            assert("u"@.len() != "area"@.len());
            assert("u"@.len() != "br"@.len());
            assert("u"@.len() != "embed"@.len());
            assert("u"@.len() != "img"@.len());
            assert("u"@.len() != "keygen"@.len());
            assert("u"@.len() != "wbr"@.len());
            assert("u"@.len() != "input"@.len());
        }
    }
    if start_formatting_tags().contains(name) {
        let i = choose|i: int| 0 <= i < start_formatting_tags().len() && start_formatting_tags()[i] == name;
        assert(!is_void_name(start_formatting_tags()[i]));
    }
    assert forall|i: int| 0 <= i < start_nobr_tags().len() implies !is_void_name(#[trigger] start_nobr_tags()[i]) by {
        if i == 0 {
            assert(start_nobr_tags()[0] == "nobr"@);
            assert("nobr"@[0] != "area"@[0]);
            assert("nobr"@.len() != "br"@.len());
            assert("nobr"@.len() != "embed"@.len());
            assert("nobr"@.len() != "img"@.len());
            assert("nobr"@.len() != "keygen"@.len());
            assert("nobr"@.len() != "wbr"@.len());
            assert("nobr"@.len() != "input"@.len());
        }
    }
    if start_nobr_tags().contains(name) {
        let i = choose|i: int| 0 <= i < start_nobr_tags().len() && start_nobr_tags()[i] == name;
        assert(!is_void_name(start_nobr_tags()[i]));
    }
    assert forall|i: int| 0 <= i < start_applet_tags().len() implies !is_void_name(#[trigger] start_applet_tags()[i]) by {
        if i == 0 {
            assert(start_applet_tags()[0] == "applet"@);
            assert("applet"@.len() != "area"@.len());
            assert("applet"@.len() != "br"@.len());
            assert("applet"@.len() != "embed"@.len());
            assert("applet"@.len() != "img"@.len());
            assert("applet"@[0] != "keygen"@[0]);
            assert("applet"@.len() != "wbr"@.len());
            assert("applet"@.len() != "input"@.len());
        } else if i == 1 {
            assert(start_applet_tags()[1] == "marquee"@);
            assert("marquee"@.len() != "area"@.len());
            assert("marquee"@.len() != "br"@.len());
            assert("marquee"@.len() != "embed"@.len());
            assert("marquee"@.len() != "img"@.len());
            assert("marquee"@.len() != "keygen"@.len());
            assert("marquee"@.len() != "wbr"@.len());
            assert("marquee"@.len() != "input"@.len());
        } else if i == 2 {
            assert(start_applet_tags()[2] == "object"@);
            assert("object"@.len() != "area"@.len());
            assert("object"@.len() != "br"@.len());
            assert("object"@.len() != "embed"@.len());
            assert("object"@.len() != "img"@.len());
            assert("object"@[0] != "keygen"@[0]);
            assert("object"@.len() != "wbr"@.len());
            assert("object"@.len() != "input"@.len());
        }
    }
    if start_applet_tags().contains(name) {
        let i = choose|i: int| 0 <= i < start_applet_tags().len() && start_applet_tags()[i] == name;
        assert(!is_void_name(start_applet_tags()[i]));
    }
    assert forall|i: int| 0 <= i < start_table_tags().len() implies !is_void_name(#[trigger] start_table_tags()[i]) by {
        if i == 0 {
            assert(start_table_tags()[0] == "table"@);
            assert("table"@.len() != "area"@.len());
            assert("table"@.len() != "br"@.len());
            assert("table"@[0] != "embed"@[0]);
            assert("table"@.len() != "img"@.len());
            assert("table"@.len() != "keygen"@.len());
            assert("table"@.len() != "wbr"@.len());
            assert("table"@[0] != "input"@[0]);
        }
    }
    if start_table_tags().contains(name) {
        let i = choose|i: int| 0 <= i < start_table_tags().len() && start_table_tags()[i] == name;
        assert(!is_void_name(start_table_tags()[i]));
    }
    if seq!["html"@].contains(name) {
        assert(seq!["html"@][0] == name);
        assert("html"@[0] != "area"@[0]);
        assert("html"@.len() != "br"@.len());
        assert("html"@.len() != "embed"@.len());
        assert("html"@.len() != "img"@.len());
        assert("html"@.len() != "keygen"@.len());
        assert("html"@.len() != "wbr"@.len());
        assert("html"@.len() != "input"@.len());
    }
    assert(start_void_tags().contains(name));
}

} // verus!
