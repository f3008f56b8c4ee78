//! The HTML tokenizer: a state machine after the WHATWG "Tokenization"
//! section, run one input character at a time.
//!
//! The tokenizer's whole state has a mathematical model (`TokenizerModel`);
//! each state of the machine is a spec function from a model to the next
//! model, or to `None` where the tokenizer does not handle the input it met
//! (a state or a character that it leaves unimplemented, or a position that
//! no longer fits in a `usize`).
use vstd::prelude::*;
use crate::text::{chars_of, owned, push_char};

verus! {

/// The states of the tokenizer.
#[derive(PartialEq, Eq, Structural, PartialOrd, Ord, Hash, Debug, Clone, Copy)]
pub enum State {
    Data,
    RcData,
    RawText,
    ScriptData,
    PlainText,
    TagOpen,
    EndTagOpen,
    TagName,
    RcDataLessThanSign,
    RcDataEndTagOpen,
    RcDataEndTagName,
    RawTextLessThanSign,
    RawTextEndTagOpen,
    RawTextEndTagName,
    ScriptDataLessThanSign,
    ScriptDataEndTagOpen,
    ScriptDataEndTagName,
    ScriptDataEscapeStart,
    ScriptDataEscapeStartDash,
    ScriptDataEscaped,
    ScriptDataEscapedDash,
    ScriptDataEscapedDashDash,
    ScriptDataEscapedLessThanSign,
    ScriptDataEscapedEndTagOpen,
    ScriptDataEscapedEndTagName,
    ScriptDataDoubleEscapeStart,
    ScriptDataDoubleEscaped,
    ScriptDataDoubleEscapedDash,
    ScriptDataDoubleEscapedDashDash,
    ScriptDataDoubleEscapedLessThanSign,
    ScriptDataDoubleEscapeEnd,
    BeforeAttributeName,
    AttributeName,
    AfterAttributeName,
    BeforeAttributeValue,
    AttributeValueDoubleQuoted,
    AttributeValueSingleQuoted,
    AttributeValueUnquoted,
    AfterAttributeValueQuoted,
    SelfClosingStartTag,
    BogusComment,
    MarkupDeclarationOpen,
    CommentStart,
    CommentStartDash,
    Comment,
    CommentLessThanSign,
    CommentLessThanSignBang,
    CommentLessThanSignBangDash,
    CommentLessThanSignBangDashDash,
    CommentEndDash,
    CommentEnd,
    CommentEndBang,
    Doctype,
    BeforeDoctypeName,
    DoctypeName,
    AfterDoctypeName,
    AfterDoctypePublicKeyword,
    BeforeDoctypePublicIdentifier,
    DoctypePublicIdentifierDoubleQuoted,
    DoctypePublicIdentifierSingleQuoted,
    AfterDoctypePublicIdentifier,
    BetweenDoctypePublicAndSystemIdentifiers,
    AfterDoctypeSystemKeyword,
    BeforeDoctypeSystemIdentifier,
    DoctypeSystemIdentifierDoubleQuoted,
    DoctypeSystemIdentifierSingleQuoted,
    AfterDoctypeSystemIdentifier,
    BogusDoctype,
    CDataSection,
    CDataSectionBracket,
    CDataSectionEnd,
    CharacterReference,
    NamedCharacterReference,
    AmbiguousAmpersand,
    NumericCharacterReference,
    HexadecimalCharacterReferenceStart,
    DecimalCharacterReferenceStart,
    HexadecimalCharacterReference,
    DecimalCharacterReference,
    NumericCharacterReferenceEnd,
}

/// An attribute of a tag token.
#[derive(PartialEq, Eq, Debug, Clone)]
pub struct Attribute {
    pub name: String,
    pub value: String,
}

/// A token produced by the tokenizer.
#[derive(PartialEq, Eq, Debug, Clone)]
pub enum Token {
    Doctype {
        name: Option<String>,
        public_identifier: Option<String>,
        system_identifier: Option<String>,
        force_quirks: bool,
    },
    StartTag {
        name: String,
        self_closing: bool,
        self_closing_acknowledged: bool,
        attributes: Vec<Attribute>,
    },
    EndTag { name: String, self_closing: bool, attributes: Vec<Attribute> },
    Comment { data: String },
    Character { data: char },
    EndOfFile,
}

/// An attribute with its strings taken as character sequences.
pub struct AttributeModel {
    pub name: Seq<char>,
    pub value: Seq<char>,
}

/// A token with its strings taken as character sequences.
pub enum TokenModel {
    Doctype {
        name: Option<Seq<char>>,
        public_identifier: Option<Seq<char>>,
        system_identifier: Option<Seq<char>>,
        force_quirks: bool,
    },
    StartTag {
        name: Seq<char>,
        self_closing: bool,
        self_closing_acknowledged: bool,
        attributes: Seq<AttributeModel>,
    },
    EndTag { name: Seq<char>, self_closing: bool, attributes: Seq<AttributeModel> },
    Comment { data: Seq<char> },
    Character { data: char },
    EndOfFile,
}

impl View for Attribute {
    type V = AttributeModel;

    open spec fn view(&self) -> AttributeModel {
        AttributeModel { name: self.name@, value: self.value@ }
    }
}

/// The characters of an optional string.
pub open spec fn opt_chars(s: Option<String>) -> Option<Seq<char>> {
    match s {
        Some(s) => Some(s@),
        None => None,
    }
}

/// The models of a sequence of attributes.
pub open spec fn attribute_models(v: Seq<Attribute>) -> Seq<AttributeModel> {
    v.map_values(|a: Attribute| a@)
}

impl View for Token {
    type V = TokenModel;

    open spec fn view(&self) -> TokenModel {
        match self {
            Token::Doctype { name, public_identifier, system_identifier, force_quirks } =>
                TokenModel::Doctype {
                name: opt_chars(*name),
                public_identifier: opt_chars(*public_identifier),
                system_identifier: opt_chars(*system_identifier),
                force_quirks: *force_quirks,
            },
            Token::StartTag { name, self_closing, self_closing_acknowledged, attributes } =>
                TokenModel::StartTag {
                name: name@,
                self_closing: *self_closing,
                self_closing_acknowledged: *self_closing_acknowledged,
                attributes: attribute_models(attributes@),
            },
            Token::EndTag { name, self_closing, attributes } => TokenModel::EndTag {
                name: name@,
                self_closing: *self_closing,
                attributes: attribute_models(attributes@),
            },
            Token::Comment { data } => TokenModel::Comment { data: data@ },
            Token::Character { data } => TokenModel::Character { data: *data },
            Token::EndOfFile => TokenModel::EndOfFile,
        }
    }
}

fn copy_opt(s: &Option<String>) -> (res: Option<String>)
    ensures
        opt_chars(res) == opt_chars(*s),
{
    match s {
        Some(x) => Some(owned(x.as_str())),
        None => None,
    }
}

fn copy_attributes(v: &Vec<Attribute>) -> (res: Vec<Attribute>)
    ensures
        attribute_models(res@) == attribute_models(v@),
{
    let mut res: Vec<Attribute> = Vec::new();
    let mut i: usize = 0;
    while i < v.len()
        invariant
            i <= v@.len(),
            res@.len() == i,
            forall|j: int| 0 <= j < i ==> (#[trigger] res@[j])@ == v@[j]@,
        decreases v@.len() - i,
    {
        res.push(Attribute { name: owned(v[i].name.as_str()), value: owned(v[i].value.as_str()) });
        i += 1;
    }
    assert(attribute_models(res@) =~= attribute_models(v@));
    res
}

/// The model of an optional token.
pub open spec fn opt_token(t: Option<Token>) -> Option<TokenModel> {
    match t {
        Some(t) => Some(t@),
        None => None,
    }
}

/// The model of an optional attribute.
pub open spec fn opt_attribute(a: Option<Attribute>) -> Option<AttributeModel> {
    match a {
        Some(a) => Some(a@),
        None => None,
    }
}

/// The models of a sequence of tokens.
pub open spec fn token_models(v: Seq<Token>) -> Seq<TokenModel> {
    v.map_values(|t: Token| t@)
}

/// The whole state of a tokenizer.
pub struct TokenizerModel {
    pub input: Seq<char>,
    pub state: State,
    pub return_state: Option<State>,
    pub temporary_buffer: Seq<char>,
    /// The names of the named character references that are known.
    pub named_references: Seq<Seq<char>>,
    /// What is left of the names still matching while a named character
    /// reference is consumed.
    pub candidates: Seq<Seq<char>>,
    pub last_start_tag_name: Option<Seq<char>>,
    pub tokens: Seq<TokenModel>,
    pub insertion_point: Option<usize>,
    pub current_input_character: Option<char>,
    pub token_emitted: bool,
    pub current_building_token: Option<TokenModel>,
    pub current_attribute: Option<AttributeModel>,
    pub character_reference_code: u32,
}

// ---------------------------------------------------------------------
// Character classes.
// ---------------------------------------------------------------------

/// Tab, line feed, form feed or space.
pub open spec fn is_html_whitespace(c: char) -> bool {
    c == '\t' || c == '\n' || c == '\u{0C}' || c == ' '
}

pub open spec fn is_upper_alpha(c: char) -> bool {
    'A' <= c && c <= 'Z'
}

pub open spec fn is_lower_alpha(c: char) -> bool {
    'a' <= c && c <= 'z'
}

pub open spec fn is_alpha(c: char) -> bool {
    is_upper_alpha(c) || is_lower_alpha(c)
}

pub open spec fn is_ascii_digit(c: char) -> bool {
    '0' <= c && c <= '9'
}

pub open spec fn is_alphanumeric(c: char) -> bool {
    is_ascii_digit(c) || is_alpha(c)
}

pub open spec fn is_upper_hex_alpha(c: char) -> bool {
    'A' <= c && c <= 'F'
}

pub open spec fn is_lower_hex_alpha(c: char) -> bool {
    'a' <= c && c <= 'f'
}

/// The ASCII lowercase of `c`.
pub open spec fn lowercase(c: char) -> char {
    if is_upper_alpha(c) {
        ((c as u32) + 32) as char
    } else {
        c
    }
}

/// The code points of surrogates.
pub open spec fn is_surrogate(n: u32) -> bool {
    0xd800 <= n && n <= 0xdfff
}

/// The code points of noncharacters.
pub open spec fn is_noncharacter(n: u32) -> bool {
    (0xfdd0 <= n && n <= 0xfdef) || (n % 0x10000 == 0xfffe && n <= 0x10ffff) || (n % 0x10000
        == 0xffff && n <= 0x10ffff)
}

/// The code points of controls.
pub open spec fn is_control(n: u32) -> bool {
    n <= 0x1f || (0x7f <= n && n <= 0x9f)
}

} // verus!
verus! {

// ---------------------------------------------------------------------
// The tokenizer's operations, on the model.
// ---------------------------------------------------------------------

/// The position of the next input character.
pub open spec fn next_position(m: TokenizerModel) -> int {
    match m.insertion_point {
        Some(i) => i as int,
        None => 0,
    }
}

/// The next input character, if there is one.
pub open spec fn next_char(m: TokenizerModel) -> Option<char> {
    let i = next_position(m);
    if i < m.input.len() {
        Some(m.input[i])
    } else {
        None
    }
}

/// Looking at the next input character sets the insertion point to the
/// start when there was none.
pub open spec fn looked_at(m: TokenizerModel) -> TokenizerModel {
    TokenizerModel { insertion_point: Some(next_position(m) as usize), ..m }
}

/// Consuming the next input character: it becomes the current input
/// character and the insertion point moves past it.
pub open spec fn consumed(m: TokenizerModel) -> Option<TokenizerModel> {
    let i = next_position(m);
    if i >= usize::MAX {
        None
    } else {
        Some(
            TokenizerModel {
                current_input_character: next_char(m),
                insertion_point: Some((i + 1) as usize),
                ..m
            },
        )
    }
}

pub open spec fn switched(m: TokenizerModel, s: State) -> TokenizerModel {
    TokenizerModel { state: s, ..m }
}

/// Reconsuming in state `s`: the insertion point moves back by one.
pub open spec fn reconsumed(m: TokenizerModel, s: State) -> Option<TokenizerModel> {
    match m.insertion_point {
        Some(i) => if i == 0 {
            None
        } else {
            Some(TokenizerModel { insertion_point: Some((i - 1) as usize), state: s, ..m })
        },
        None => Some(switched(m, s)),
    }
}

pub open spec fn reconsumed_in_return_state(m: TokenizerModel) -> Option<TokenizerModel> {
    match m.return_state {
        Some(r) => match reconsumed(m, r) {
            Some(m1) => Some(TokenizerModel { return_state: None, ..m1 }),
            None => None,
        },
        None => Some(m),
    }
}

pub open spec fn switched_to_return_state(m: TokenizerModel) -> TokenizerModel {
    match m.return_state {
        Some(r) => TokenizerModel { state: r, return_state: None, ..m },
        None => m,
    }
}

pub open spec fn with_return_state(m: TokenizerModel, s: State) -> TokenizerModel {
    TokenizerModel { return_state: Some(s), ..m }
}

/// Emitting token `t`.
pub open spec fn emitted(m: TokenizerModel, t: TokenModel) -> TokenizerModel {
    TokenizerModel {
        last_start_tag_name: match t {
            TokenModel::StartTag { name, .. } => Some(name),
            _ => m.last_start_tag_name,
        },
        tokens: m.tokens.push(t),
        token_emitted: true,
        ..m
    }
}

/// Emitting a character token for each of `cs`, in order.
pub open spec fn emitted_characters(m: TokenizerModel, cs: Seq<char>) -> TokenizerModel
    decreases cs.len(),
{
    if cs.len() == 0 {
        m
    } else {
        emitted_characters(emitted(m, TokenModel::Character { data: cs[0] }), cs.drop_first())
    }
}

/// Adding the current attribute, if any, to the current tag token.
pub open spec fn attribute_pushed(m: TokenizerModel) -> TokenizerModel {
    match m.current_attribute {
        Some(a) => TokenizerModel {
            current_building_token: match m.current_building_token {
                Some(
                    TokenModel::StartTag { name, self_closing, self_closing_acknowledged, attributes },
                ) => Some(
                    TokenModel::StartTag {
                        name,
                        self_closing,
                        self_closing_acknowledged,
                        attributes: attributes.push(a),
                    },
                ),
                other => other,
            },
            current_attribute: None,
            ..m
        },
        None => m,
    }
}

/// Emitting the current token, with the current attribute added to it.
pub open spec fn emitted_current(m: TokenizerModel) -> TokenizerModel {
    let m1 = attribute_pushed(m);
    match m1.current_building_token {
        Some(t) => TokenizerModel { current_building_token: None, ..emitted(m1, t) },
        None => m1,
    }
}

/// Starting a new attribute `a`.
pub open spec fn attribute_started(m: TokenizerModel, a: AttributeModel) -> TokenizerModel {
    TokenizerModel { current_attribute: Some(a), ..attribute_pushed(m) }
}

pub open spec fn empty_attribute() -> AttributeModel {
    AttributeModel { name: Seq::empty(), value: Seq::empty() }
}

/// Flushing the code points consumed as a character reference.
pub open spec fn flushed(m: TokenizerModel) -> TokenizerModel {
    match m.current_attribute {
        Some(a) => TokenizerModel {
            current_attribute: Some(
                AttributeModel { name: a.name, value: a.value + m.temporary_buffer },
            ),
            ..m
        },
        None => emitted_characters(m, m.temporary_buffer),
    }
}

/// Whether the current end tag token is an appropriate end tag token;
/// `None` when the current token is no end tag.
pub open spec fn appropriate_end_tag(m: TokenizerModel) -> Option<bool> {
    match m.current_building_token {
        Some(TokenModel::EndTag { name, .. }) => Some(m.last_start_tag_name == Some(name)),
        _ => None,
    }
}

/// Appending `c` to the current tag token's name.
pub open spec fn tag_name_appended(m: TokenizerModel, c: char) -> TokenizerModel {
    TokenizerModel {
        current_building_token: match m.current_building_token {
            Some(TokenModel::StartTag { name, self_closing, self_closing_acknowledged, attributes }) =>
                Some(
                TokenModel::StartTag {
                    name: name.push(c),
                    self_closing,
                    self_closing_acknowledged,
                    attributes,
                },
            ),
            Some(TokenModel::EndTag { name, self_closing, attributes }) => Some(
                TokenModel::EndTag { name: name.push(c), self_closing, attributes },
            ),
            other => other,
        },
        ..m
    }
}

/// Appending `c` to the current attribute's name.
pub open spec fn attribute_name_appended(m: TokenizerModel, c: char) -> TokenizerModel {
    TokenizerModel {
        current_attribute: match m.current_attribute {
            Some(a) => Some(AttributeModel { name: a.name.push(c), value: a.value }),
            None => None,
        },
        ..m
    }
}

/// Appending `c` to the current attribute's value.
pub open spec fn attribute_value_appended(m: TokenizerModel, c: char) -> TokenizerModel {
    TokenizerModel {
        current_attribute: match m.current_attribute {
            Some(a) => Some(AttributeModel { name: a.name, value: a.value.push(c) }),
            None => None,
        },
        ..m
    }
}

pub open spec fn new_start_tag() -> TokenModel {
    TokenModel::StartTag {
        name: Seq::empty(),
        self_closing: false,
        self_closing_acknowledged: false,
        attributes: Seq::empty(),
    }
}

pub open spec fn new_end_tag() -> TokenModel {
    TokenModel::EndTag { name: Seq::empty(), self_closing: false, attributes: Seq::empty() }
}

pub open spec fn with_token(m: TokenizerModel, t: TokenModel) -> TokenizerModel {
    TokenizerModel { current_building_token: Some(t), ..m }
}

/// Whether the next `w.len()` characters match `w`, ASCII case-insensitively;
/// `None` when fewer characters are left.
pub open spec fn next_chars_match(m: TokenizerModel, w: Seq<char>) -> Option<bool> {
    match m.insertion_point {
        None => Some(false),
        Some(i) => if i + w.len() > m.input.len() {
            None
        } else {
            Some(forall|k: int| 0 <= k < w.len() ==> lowercase(#[trigger] m.input[i + k]) == lowercase(w[k]))
        },
    }
}

pub open spec fn hyphens() -> Seq<char> {
    seq!['-', '-']
}

pub open spec fn doctype_word() -> Seq<char> {
    seq!['D', 'O', 'C', 'T', 'Y', 'P', 'E']
}

/// Moving the insertion point over `n` characters.
pub open spec fn skipped(m: TokenizerModel, n: int) -> TokenizerModel {
    match m.insertion_point {
        Some(i) => TokenizerModel { insertion_point: Some((i + n) as usize), ..m },
        None => m,
    }
}

/// The candidates that go on matching after character `c`, with `c`
/// taken off their front.
pub open spec fn advanced_candidates(cs: Seq<Seq<char>>, c: char) -> Seq<Seq<char>>
    decreases cs.len(),
{
    if cs.len() == 0 {
        Seq::empty()
    } else {
        let rest = advanced_candidates(cs.drop_last(), c);
        let n = cs.last();
        if n.len() > 0 && n[0] == c {
            rest.push(n.subrange(1, n.len() as int))
        } else {
            rest
        }
    }
}

} // verus!
verus! {

// ---------------------------------------------------------------------
// The states, one step each: from a model to the next one, or `None`
// where the tokenizer does not handle what it met.
// ---------------------------------------------------------------------

/// The data, RCDATA, RAWTEXT and script data states: `amp` is where a
/// character reference returns to (`None` where `&` is plain text),
/// `less_than` the state after `<`, and `replace_null` whether a NULL
/// becomes U+FFFD (the tokenizer does not handle a NULL otherwise).
pub open spec fn text_state(
    m: TokenizerModel,
    amp: Option<State>,
    less_than: State,
    replace_null: bool,
) -> Option<TokenizerModel> {
    match consumed(m) {
        None => None,
        Some(m1) => match m1.current_input_character {
            Some(c) => if c == '&' && amp is Some {
                Some(switched(with_return_state(m1, amp.unwrap()), State::CharacterReference))
            } else if c == '<' {
                Some(switched(m1, less_than))
            } else if c == '\u{0}' {
                if replace_null {
                    Some(emitted(m1, TokenModel::Character { data: '\u{FFFD}' }))
                } else {
                    None
                }
            } else {
                Some(emitted(m1, TokenModel::Character { data: c }))
            },
            None => Some(emitted(m1, TokenModel::EndOfFile)),
        },
    }
}

pub open spec fn tag_open_state(m: TokenizerModel) -> Option<TokenizerModel> {
    match consumed(m) {
        None => None,
        Some(m1) => match m1.current_input_character {
            Some(c) => if c == '!' {
                Some(switched(m1, State::MarkupDeclarationOpen))
            } else if c == '/' {
                Some(switched(m1, State::EndTagOpen))
            } else if is_alpha(c) {
                reconsumed(with_token(m1, new_start_tag()), State::TagName)
            } else {
                None
            },
            None => None,
        },
    }
}

pub open spec fn end_tag_open_state(m: TokenizerModel) -> Option<TokenizerModel> {
    match consumed(m) {
        None => None,
        Some(m1) => match m1.current_input_character {
            Some(c) => if is_alpha(c) {
                reconsumed(with_token(m1, new_end_tag()), State::TagName)
            } else {
                None
            },
            None => None,
        },
    }
}

pub open spec fn tag_name_state(m: TokenizerModel) -> Option<TokenizerModel> {
    match consumed(m) {
        None => None,
        Some(m1) => match m1.current_input_character {
            Some(c) => if is_html_whitespace(c) {
                Some(switched(m1, State::BeforeAttributeName))
            } else if c == '/' {
                Some(switched(m1, State::SelfClosingStartTag))
            } else if c == '>' {
                Some(emitted_current(switched(m1, State::Data)))
            } else if c == '\u{0}' {
                None
            } else {
                Some(tag_name_appended(m1, lowercase(c)))
            },
            None => None,
        },
    }
}

/// The RCDATA and RAWTEXT less-than sign states: `end_tag_open` is the
/// state after `/`, `text` the state to go back to.
pub open spec fn less_than_sign_state(m: TokenizerModel, end_tag_open: State, text: State) -> Option<
    TokenizerModel,
> {
    match consumed(m) {
        None => None,
        Some(m1) => if m1.current_input_character == Some('/') {
            Some(switched(TokenizerModel { temporary_buffer: Seq::empty(), ..m1 }, end_tag_open))
        } else {
            reconsumed(emitted(m1, TokenModel::Character { data: '<' }), text)
        },
    }
}

pub open spec fn script_data_less_than_sign_state(m: TokenizerModel) -> Option<TokenizerModel> {
    match consumed(m) {
        None => None,
        Some(m1) => if m1.current_input_character == Some('/') {
            Some(
                switched(
                    TokenizerModel { temporary_buffer: Seq::empty(), ..m1 },
                    State::ScriptDataEndTagOpen,
                ),
            )
        } else if m1.current_input_character == Some('!') {
            Some(
                emitted(
                    emitted(
                        switched(m1, State::ScriptDataEscapeStart),
                        TokenModel::Character { data: '<' },
                    ),
                    TokenModel::Character { data: '!' },
                ),
            )
        } else {
            reconsumed(emitted(m1, TokenModel::Character { data: '<' }), State::ScriptData)
        },
    }
}

/// The RCDATA, RAWTEXT and script data end tag open states.
pub open spec fn text_end_tag_open_state(m: TokenizerModel, end_tag_name: State, text: State) -> Option<
    TokenizerModel,
> {
    match consumed(m) {
        None => None,
        Some(m1) => if m1.current_input_character matches Some(c) && is_alpha(c) {
            reconsumed(with_token(m1, new_end_tag()), end_tag_name)
        } else {
            reconsumed(
                emitted(
                    emitted(m1, TokenModel::Character { data: '<' }),
                    TokenModel::Character { data: '/' },
                ),
                text,
            )
        },
    }
}

/// What the end tag name states do when the end tag is not taken: emit
/// `</` and the temporary buffer as text.
pub open spec fn end_tag_as_text(m: TokenizerModel, text: State) -> Option<TokenizerModel> {
    reconsumed(
        emitted_characters(
            emitted(
                emitted(m, TokenModel::Character { data: '<' }),
                TokenModel::Character { data: '/' },
            ),
            m.temporary_buffer,
        ),
        text,
    )
}

/// The RCDATA, RAWTEXT and script data end tag name states.
pub open spec fn text_end_tag_name_state(m: TokenizerModel, text: State) -> Option<TokenizerModel> {
    match consumed(m) {
        None => None,
        Some(m1) => match m1.current_input_character {
            Some(c) => if is_html_whitespace(c) || c == '/' || c == '>' {
                match appropriate_end_tag(m1) {
                    None => None,
                    Some(true) => if is_html_whitespace(c) {
                        Some(switched(m1, State::BeforeAttributeName))
                    } else if c == '/' {
                        Some(switched(m1, State::SelfClosingStartTag))
                    } else {
                        Some(emitted_current(switched(m1, State::Data)))
                    },
                    Some(false) => end_tag_as_text(m1, text),
                }
            } else if is_upper_alpha(c) {
                None
            } else if is_lower_alpha(c) {
                Some(
                    TokenizerModel {
                        temporary_buffer: m1.temporary_buffer.push(c),
                        ..tag_name_appended(m1, c)
                    },
                )
            } else {
                end_tag_as_text(m1, text)
            },
            None => end_tag_as_text(m1, text),
        },
    }
}

pub open spec fn before_attribute_name_state(m: TokenizerModel) -> Option<TokenizerModel> {
    match consumed(m) {
        None => None,
        Some(m1) => match m1.current_input_character {
            Some(c) => if is_html_whitespace(c) {
                Some(m1)
            } else if c == '/' || c == '>' {
                reconsumed(m1, State::AfterAttributeName)
            } else if c == '=' {
                None
            } else {
                reconsumed(attribute_started(m1, empty_attribute()), State::AttributeName)
            },
            None => reconsumed(m1, State::AfterAttributeName),
        },
    }
}

pub open spec fn attribute_name_state(m: TokenizerModel) -> Option<TokenizerModel> {
    match consumed(m) {
        None => None,
        Some(m1) => match m1.current_input_character {
            Some(c) => if is_html_whitespace(c) || c == '/' || c == '>' {
                reconsumed(m1, State::AfterAttributeName)
            } else if c == '=' {
                Some(switched(m1, State::BeforeAttributeValue))
            } else if c == '\u{0}' {
                None
            } else {
                Some(attribute_name_appended(m1, lowercase(c)))
            },
            None => reconsumed(m1, State::AfterAttributeName),
        },
    }
}

pub open spec fn after_attribute_name_state(m: TokenizerModel) -> Option<TokenizerModel> {
    match consumed(m) {
        None => None,
        Some(m1) => match m1.current_input_character {
            Some(c) => if is_html_whitespace(c) {
                Some(m1)
            } else if c == '/' {
                Some(switched(m1, State::SelfClosingStartTag))
            } else if c == '=' {
                Some(switched(m1, State::BeforeAttributeValue))
            } else if c == '>' {
                Some(emitted_current(switched(m1, State::Data)))
            } else {
                reconsumed(attribute_started(m1, empty_attribute()), State::AttributeName)
            },
            None => None,
        },
    }
}

pub open spec fn before_attribute_value_state(m: TokenizerModel) -> Option<TokenizerModel> {
    match consumed(m) {
        None => None,
        Some(m1) => match m1.current_input_character {
            Some(c) => if is_html_whitespace(c) {
                Some(m1)
            } else if c == '"' {
                Some(switched(m1, State::AttributeValueDoubleQuoted))
            } else if c == '\'' {
                Some(switched(m1, State::AttributeValueSingleQuoted))
            } else if c == '>' {
                None
            } else {
                reconsumed(m1, State::AttributeValueUnquoted)
            },
            None => Some(m1),
        },
    }
}

/// The attribute value (double- and single-quoted) states; `quote` ends
/// the value and `this` is the state itself.
pub open spec fn quoted_attribute_value_state(m: TokenizerModel, quote: char, this: State) -> Option<
    TokenizerModel,
> {
    match consumed(m) {
        None => None,
        Some(m1) => match m1.current_input_character {
            Some(c) => if c == quote {
                Some(switched(m1, State::AfterAttributeValueQuoted))
            } else if c == '&' {
                Some(switched(with_return_state(m1, this), State::CharacterReference))
            } else if c == '\u{0}' {
                None
            } else {
                Some(attribute_value_appended(m1, c))
            },
            None => None,
        },
    }
}

pub open spec fn unquoted_attribute_value_state(m: TokenizerModel) -> Option<TokenizerModel> {
    match consumed(m) {
        None => None,
        Some(m1) => match m1.current_input_character {
            Some(c) => if is_html_whitespace(c) {
                Some(switched(m1, State::BeforeAttributeName))
            } else if c == '&' {
                None
            } else if c == '>' {
                Some(emitted_current(switched(m1, State::Data)))
            } else if c == '\u{0}' {
                None
            } else {
                Some(attribute_value_appended(m1, c))
            },
            None => None,
        },
    }
}

pub open spec fn after_attribute_value_quoted_state(m: TokenizerModel) -> Option<TokenizerModel> {
    match consumed(m) {
        None => None,
        Some(m1) => match m1.current_input_character {
            Some(c) => if is_html_whitespace(c) {
                Some(switched(m1, State::BeforeAttributeName))
            } else if c == '/' {
                Some(switched(m1, State::SelfClosingStartTag))
            } else if c == '>' {
                Some(emitted_current(switched(m1, State::Data)))
            } else {
                reconsumed(m1, State::BeforeAttributeName)
            },
            None => None,
        },
    }
}

/// Setting the self-closing flag of the current tag token.
pub open spec fn self_closing_set(m: TokenizerModel) -> TokenizerModel {
    TokenizerModel {
        current_building_token: match m.current_building_token {
            Some(TokenModel::StartTag { name, self_closing_acknowledged, attributes, .. }) => Some(
                TokenModel::StartTag {
                    name,
                    self_closing: true,
                    self_closing_acknowledged,
                    attributes,
                },
            ),
            other => other,
        },
        ..m
    }
}

pub open spec fn self_closing_start_tag_state(m: TokenizerModel) -> Option<TokenizerModel> {
    match consumed(m) {
        None => None,
        Some(m1) => if m1.current_input_character == Some('>') {
            Some(switched(emitted_current(self_closing_set(m1)), State::Data))
        } else {
            None
        },
    }
}

pub open spec fn markup_declaration_open_state(m: TokenizerModel) -> Option<TokenizerModel> {
    match next_chars_match(m, hyphens()) {
        None => None,
        Some(true) => Some(
            switched(
                with_token(skipped(m, 2), TokenModel::Comment { data: Seq::empty() }),
                State::CommentStart,
            ),
        ),
        Some(false) => match next_chars_match(m, doctype_word()) {
            Some(true) => Some(switched(skipped(m, 7), State::Doctype)),
            _ => None,
        },
    }
}

pub open spec fn comment_start_state(m: TokenizerModel) -> Option<TokenizerModel> {
    match consumed(m) {
        None => None,
        Some(m1) => if m1.current_input_character == Some('-') {
            Some(switched(m1, State::CommentStartDash))
        } else if m1.current_input_character == Some('>') {
            Some(emitted_current(switched(m1, State::Data)))
        } else {
            reconsumed(m1, State::Comment)
        },
    }
}

pub open spec fn doctype_state(m: TokenizerModel) -> Option<TokenizerModel> {
    match consumed(m) {
        None => None,
        Some(m1) => if m1.current_input_character matches Some(c) && is_html_whitespace(c) {
            Some(switched(m1, State::BeforeDoctypeName))
        } else {
            None
        },
    }
}

pub open spec fn before_doctype_name_state(m: TokenizerModel) -> Option<TokenizerModel> {
    match consumed(m) {
        None => None,
        Some(m1) => match m1.current_input_character {
            Some(c) => if is_html_whitespace(c) {
                Some(m1)
            } else if c == '\u{0}' || c == '>' {
                None
            } else {
                Some(
                    switched(
                        with_token(
                            m1,
                            TokenModel::Doctype {
                                name: Some(seq![c]),
                                public_identifier: None,
                                system_identifier: None,
                                force_quirks: false,
                            },
                        ),
                        State::DoctypeName,
                    ),
                )
            },
            None => Some(
                emitted(
                    emitted(
                        m1,
                        TokenModel::Doctype {
                            name: None,
                            public_identifier: None,
                            system_identifier: None,
                            force_quirks: true,
                        },
                    ),
                    TokenModel::EndOfFile,
                ),
            ),
        },
    }
}

/// Appending `c` to the current DOCTYPE token's name.
pub open spec fn doctype_name_appended(m: TokenizerModel, c: char) -> TokenizerModel {
    TokenizerModel {
        current_building_token: match m.current_building_token {
            Some(
                TokenModel::Doctype {
                    name: Some(name),
                    public_identifier,
                    system_identifier,
                    force_quirks,
                },
            ) => Some(
                TokenModel::Doctype {
                    name: Some(name.push(c)),
                    public_identifier,
                    system_identifier,
                    force_quirks,
                },
            ),
            other => other,
        },
        ..m
    }
}

pub open spec fn doctype_name_state(m: TokenizerModel) -> Option<TokenizerModel> {
    match consumed(m) {
        None => None,
        Some(m1) => match m1.current_input_character {
            Some(c) => if is_html_whitespace(c) {
                Some(switched(m1, State::AfterDoctypeName))
            } else if c == '>' {
                Some(emitted_current(switched(m1, State::Data)))
            } else if c == '\u{0}' {
                None
            } else {
                Some(doctype_name_appended(m1, lowercase(c)))
            },
            None => None,
        },
    }
}

pub open spec fn character_reference_state(m: TokenizerModel) -> Option<TokenizerModel> {
    match consumed(TokenizerModel { temporary_buffer: seq!['&'], ..m }) {
        None => None,
        Some(m1) => match m1.current_input_character {
            Some(c) => if is_alphanumeric(c) {
                reconsumed(m1, State::NamedCharacterReference)
            } else if c == '#' {
                Some(
                    switched(
                        TokenizerModel { temporary_buffer: m1.temporary_buffer.push(c), ..m1 },
                        State::NumericCharacterReference,
                    ),
                )
            } else {
                reconsumed_in_return_state(flushed(m1))
            },
            None => reconsumed_in_return_state(flushed(m1)),
        },
    }
}

/// How far the insertion point has gone: the measure that the matching of a
/// named character reference moves forward.
pub open spec fn progress(m: TokenizerModel) -> int {
    match m.insertion_point {
        Some(i) => i + 1,
        None => 0,
    }
}

/// Consuming characters while more than one candidate is left.
pub open spec fn candidates_matched(m: TokenizerModel) -> Option<TokenizerModel>
    decreases usize::MAX + 2 - progress(m),
{
    if m.candidates.len() <= 1 {
        Some(m)
    } else {
        match consumed(m) {
            None => None,
            Some(m1) => match m1.current_input_character {
                None => None,
                Some(c) => candidates_matched(
                    TokenizerModel {
                        candidates: advanced_candidates(m1.candidates, c),
                        temporary_buffer: m1.temporary_buffer.push(c),
                        ..m1
                    },
                ),
            },
        }
    }
}

pub open spec fn named_character_reference_state(m: TokenizerModel) -> Option<TokenizerModel> {
    match candidates_matched(TokenizerModel { candidates: m.named_references, ..m }) {
        None => None,
        Some(m2) => if m2.candidates.len() > 0 {
            if m2.current_attribute is Some && !(m2.temporary_buffer.len() > 0
                && m2.temporary_buffer.last() == ';') {
                let m3 = looked_at(m2);
                if next_char(m3) matches Some(c) && (c == '=' || is_alphanumeric(c)) {
                    Some(switched_to_return_state(flushed(m3)))
                } else {
                    Some(m3)
                }
            } else {
                Some(m2)
            }
        } else {
            Some(switched(flushed(m2), State::AmbiguousAmpersand))
        },
    }
}

pub open spec fn ambiguous_ampersand_state(m: TokenizerModel) -> Option<TokenizerModel> {
    match consumed(m) {
        None => None,
        Some(m1) => if m1.current_input_character matches Some(c) && is_alphanumeric(c) {
            let c = m1.current_input_character.unwrap();
            if m1.current_attribute is Some {
                Some(attribute_value_appended(m1, c))
            } else {
                Some(emitted(m1, TokenModel::Character { data: c }))
            }
        } else {
            reconsumed_in_return_state(m1)
        },
    }
}

pub open spec fn numeric_character_reference_state(m: TokenizerModel) -> Option<TokenizerModel> {
    match consumed(m) {
        None => None,
        Some(m0) => {
            let m1 = TokenizerModel { character_reference_code: 0, ..m0 };
            if m1.current_input_character matches Some(c) && (c == 'x' || c == 'X') {
                Some(
                    switched(
                        TokenizerModel {
                            temporary_buffer: m1.temporary_buffer.push(
                                m1.current_input_character.unwrap(),
                            ),
                            ..m1
                        },
                        State::HexadecimalCharacterReferenceStart,
                    ),
                )
            } else {
                reconsumed(m1, State::DecimalCharacterReferenceStart)
            }
        },
    }
}

pub open spec fn is_hex_digit(c: char) -> bool {
    is_ascii_digit(c) || is_upper_hex_alpha(c) || is_lower_hex_alpha(c)
}

pub open spec fn hexadecimal_character_reference_start_state(m: TokenizerModel) -> Option<
    TokenizerModel,
> {
    match consumed(m) {
        None => None,
        Some(m1) => if m1.current_input_character matches Some(c) && is_hex_digit(c) {
            reconsumed(m1, State::HexadecimalCharacterReference)
        } else {
            reconsumed_in_return_state(flushed(m1))
        },
    }
}

/// The value of hexadecimal digit `c`.
pub open spec fn hex_value(c: char) -> int {
    if is_ascii_digit(c) {
        c as int - 0x30
    } else if is_upper_hex_alpha(c) {
        c as int - 0x37
    } else {
        c as int - 0x57
    }
}

pub open spec fn hexadecimal_character_reference_state(m: TokenizerModel) -> Option<TokenizerModel> {
    match consumed(m) {
        None => None,
        Some(m1) => match m1.current_input_character {
            Some(c) => if is_hex_digit(c) {
                let code = m1.character_reference_code * 16 + hex_value(c);
                if code > u32::MAX {
                    None
                } else {
                    Some(TokenizerModel { character_reference_code: code as u32, ..m1 })
                }
            } else if c == ';' {
                Some(switched(m1, State::NumericCharacterReferenceEnd))
            } else {
                reconsumed(m1, State::NumericCharacterReferenceEnd)
            },
            None => reconsumed(m1, State::NumericCharacterReferenceEnd),
        },
    }
}

pub open spec fn numeric_character_reference_end_state(m: TokenizerModel) -> Option<TokenizerModel> {
    let n = m.character_reference_code;
    if n == 0 || is_surrogate(n) || is_noncharacter(n) || n >= 0x10ffff || n == 0x0d
        || is_control(n) {
        None
    } else {
        Some(
            switched_to_return_state(
                flushed(TokenizerModel { temporary_buffer: seq![n as char], ..m }),
            ),
        )
    }
}

/// One step of the tokenizer in its current state.
pub open spec fn step(m: TokenizerModel) -> Option<TokenizerModel> {
    match m.state {
        State::Data => text_state(m, Some(State::Data), State::TagOpen, false),
        State::RcData => text_state(m, Some(State::RcData), State::RcDataLessThanSign, true),
        State::RawText => text_state(m, None, State::RawTextLessThanSign, true),
        State::ScriptData => text_state(m, None, State::ScriptDataLessThanSign, true),
        State::TagOpen => tag_open_state(m),
        State::EndTagOpen => end_tag_open_state(m),
        State::TagName => tag_name_state(m),
        State::RcDataLessThanSign => less_than_sign_state(
            m,
            State::RcDataEndTagOpen,
            State::RcData,
        ),
        State::RcDataEndTagOpen => text_end_tag_open_state(
            m,
            State::RcDataEndTagName,
            State::RcData,
        ),
        State::RcDataEndTagName => text_end_tag_name_state(m, State::RcData),
        State::RawTextLessThanSign => less_than_sign_state(
            m,
            State::RawTextEndTagOpen,
            State::RawText,
        ),
        State::RawTextEndTagOpen => text_end_tag_open_state(
            m,
            State::RawTextEndTagName,
            State::RawText,
        ),
        State::RawTextEndTagName => text_end_tag_name_state(m, State::RawText),
        State::ScriptDataLessThanSign => script_data_less_than_sign_state(m),
        State::ScriptDataEndTagOpen => text_end_tag_open_state(
            m,
            State::ScriptDataEndTagName,
            State::ScriptData,
        ),
        State::ScriptDataEndTagName => text_end_tag_name_state(m, State::ScriptData),
        State::BeforeAttributeName => before_attribute_name_state(m),
        State::AttributeName => attribute_name_state(m),
        State::AfterAttributeName => after_attribute_name_state(m),
        State::BeforeAttributeValue => before_attribute_value_state(m),
        State::AttributeValueDoubleQuoted => quoted_attribute_value_state(
            m,
            '"',
            State::AttributeValueDoubleQuoted,
        ),
        State::AttributeValueSingleQuoted => quoted_attribute_value_state(
            m,
            '\'',
            State::AttributeValueSingleQuoted,
        ),
        State::AttributeValueUnquoted => unquoted_attribute_value_state(m),
        State::AfterAttributeValueQuoted => after_attribute_value_quoted_state(m),
        State::SelfClosingStartTag => self_closing_start_tag_state(m),
        State::MarkupDeclarationOpen => markup_declaration_open_state(m),
        State::CommentStart => comment_start_state(m),
        State::Doctype => doctype_state(m),
        State::BeforeDoctypeName => before_doctype_name_state(m),
        State::DoctypeName => doctype_name_state(m),
        State::CharacterReference => character_reference_state(m),
        State::NamedCharacterReference => named_character_reference_state(m),
        State::AmbiguousAmpersand => ambiguous_ampersand_state(m),
        State::NumericCharacterReference => numeric_character_reference_state(m),
        State::HexadecimalCharacterReferenceStart => hexadecimal_character_reference_start_state(m),
        State::HexadecimalCharacterReference => hexadecimal_character_reference_state(m),
        State::NumericCharacterReferenceEnd => numeric_character_reference_end_state(m),
        _ => None,
    }
}

/// How running the tokenizer until it emits a token goes.
pub enum Run {
    /// It emitted one or more tokens and stopped in this state.
    Emitted(TokenizerModel),
    /// It met something that it does not handle.
    Stuck,
    /// It had not emitted a token within the steps allowed.
    Running,
}

/// Stepping the tokenizer at most `fuel` times, until a token is emitted.
pub open spec fn run(m: TokenizerModel, fuel: nat) -> Run
    decreases fuel,
{
    if m.token_emitted {
        Run::Emitted(m)
    } else if fuel == 0 {
        Run::Running
    } else {
        match step(m) {
            Some(m1) => run(m1, (fuel - 1) as nat),
            None => Run::Stuck,
        }
    }
}

/// The last token emitted, if any.
pub open spec fn last_token(m: TokenizerModel) -> Option<TokenModel> {
    if m.tokens.len() > 0 {
        Some(m.tokens.last())
    } else {
        None
    }
}

/// The end-of-file token has been emitted last.
pub open spec fn at_end(m: TokenizerModel) -> bool {
    last_token(m) == Some(TokenModel::EndOfFile)
}

/// The tokenizer, asked for the next token from `m`, emits one within
/// `fuel` steps.
pub open spec fn emits_within(m: TokenizerModel, fuel: nat) -> bool {
    run(TokenizerModel { token_emitted: false, ..m }, fuel) is Emitted
}

/// The model after the next token, where `emits_within` holds for some fuel.
pub open spec fn after_next_token(m: TokenizerModel) -> TokenizerModel {
    let f = choose|f: nat| emits_within(m, f);
    run(TokenizerModel { token_emitted: false, ..m }, f)->Emitted_0
}

} // verus!
verus! {

/// The strings of a sequence of character vectors.
pub open spec fn char_seqs(v: Seq<Vec<char>>) -> Seq<Seq<char>> {
    v.map_values(|x: Vec<char>| x@)
}

/// A step that ends in `new` with `ok` set, against the step's model `r`:
/// `ok` tells whether the step is handled, and then `new` is its result.
pub open spec fn stepped(new: TokenizerModel, ok: bool, r: Option<TokenizerModel>) -> bool {
    &&& ok == (r is Some)
    &&& ok ==> new == r.unwrap()
}

/// A tokenizer at the start of `input`, knowing the named character
/// references `names`.
pub open spec fn initial_model(input: Seq<char>, names: Seq<Seq<char>>) -> TokenizerModel {
    TokenizerModel {
        input,
        state: State::Data,
        return_state: None,
        temporary_buffer: Seq::empty(),
        named_references: names,
        candidates: Seq::empty(),
        last_start_tag_name: None,
        tokens: Seq::empty(),
        insertion_point: None,
        current_input_character: None,
        token_emitted: false,
        current_building_token: None,
        current_attribute: None,
        character_reference_code: 0,
    }
}

/// The HTML tokenizer.
#[derive(PartialEq, Eq, Debug, Clone)]
pub struct Tokenizer {
    input: Vec<char>,
    state: State,
    return_state: Option<State>,
    temporary_buffer: Vec<char>,
    named_references: Vec<Vec<char>>,
    candidates: Vec<Vec<char>>,
    last_start_tag_name: Option<String>,
    tokens: Vec<Token>,
    insertion_point: Option<usize>,
    current_input_character: Option<char>,
    token_emitted: bool,
    current_building_token: Option<Token>,
    current_attribute: Option<Attribute>,
    character_reference_code: u32,
}

impl View for Tokenizer {
    type V = TokenizerModel;

    closed spec fn view(&self) -> TokenizerModel {
        TokenizerModel {
            input: self.input@,
            state: self.state,
            return_state: self.return_state,
            temporary_buffer: self.temporary_buffer@,
            named_references: char_seqs(self.named_references@),
            candidates: char_seqs(self.candidates@),
            last_start_tag_name: opt_chars(self.last_start_tag_name),
            tokens: token_models(self.tokens@),
            insertion_point: self.insertion_point,
            current_input_character: self.current_input_character,
            token_emitted: self.token_emitted,
            current_building_token: opt_token(self.current_building_token),
            current_attribute: opt_attribute(self.current_attribute),
            character_reference_code: self.character_reference_code,
        }
    }
}

/// A copy of `v`.
fn copy_chars(v: &Vec<char>) -> (res: Vec<char>)
    ensures
        res@ == v@,
{
    let mut res: Vec<char> = Vec::new();
    let mut i: usize = 0;
    while i < v.len()
        invariant
            i <= v.len(),
            res@ == v@.take(i as int),
        decreases v.len() - i,
    {
        res.push(v[i]);
        i += 1;
        assert(res@ =~= v@.take(i as int));
    }
    assert(v@.take(v.len() as int) =~= v@);
    res
}

/// A copy of the names in `t`.
fn copy_table(t: &Vec<Vec<char>>) -> (res: Vec<Vec<char>>)
    ensures
        char_seqs(res@) == char_seqs(t@),
{
    let mut res: Vec<Vec<char>> = Vec::new();
    let mut i: usize = 0;
    while i < t.len()
        invariant
            i <= t.len(),
            char_seqs(res@) == char_seqs(t@).take(i as int),
        decreases t.len() - i,
    {
        let c = copy_chars(&t[i]);
        let ghost before = res@;
        assert(char_seqs(before).len() == before.len());
        assert(before.len() == i);
        res.push(c);
        assert forall|j: int| 0 <= j < before.len() implies #[trigger] res@[j]@ == t@[j]@ by {
            assert(res@[j] == before[j]);
            assert(char_seqs(before)[j] == char_seqs(t@).take(i as int)[j]);
        }
        assert(res@[i as int]@ == t@[i as int]@);
        i += 1;
        assert(char_seqs(res@) =~= char_seqs(t@).take(i as int));
    }
    assert(char_seqs(t@).take(t.len() as int) =~= char_seqs(t@));
    res
}

/// The characters of `v` after the first.
fn tail(v: &Vec<char>) -> (res: Vec<char>)
    requires
        v.len() > 0,
    ensures
        res@ == v@.subrange(1, v@.len() as int),
{
    let mut res: Vec<char> = Vec::new();
    let mut i: usize = 1;
    while i < v.len()
        invariant
            1 <= i <= v.len(),
            res@ == v@.subrange(1, i as int),
        decreases v.len() - i,
    {
        res.push(v[i]);
        i += 1;
        assert(res@ =~= v@.subrange(1, i as int));
    }
    res
}

/// The candidates going on after `c`, with `c` taken off their front.
fn advance_candidates(cs: &Vec<Vec<char>>, c: char) -> (res: Vec<Vec<char>>)
    ensures
        char_seqs(res@) == advanced_candidates(char_seqs(cs@), c),
{
    let mut res: Vec<Vec<char>> = Vec::new();
    let mut i: usize = 0;
    while i < cs.len()
        invariant
            i <= cs.len(),
            char_seqs(res@) == advanced_candidates(char_seqs(cs@).take(i as int), c),
        decreases cs.len() - i,
    {
        let ghost before = char_seqs(res@);
        proof {
            assert(char_seqs(cs@).take(i + 1).drop_last() =~= char_seqs(cs@).take(i as int));
        }
        let n = &cs[i];
        if n.len() > 0 && n[0] == c {
            let t = tail(n);
            res.push(t);
            assert(char_seqs(res@) =~= before.push(n@.subrange(1, n@.len() as int)));
        } else {
            assert(char_seqs(res@) =~= before);
        }
        i += 1;
    }
    assert(char_seqs(cs@).take(cs.len() as int) =~= char_seqs(cs@));
    res
}

/// The ASCII lowercase of `c`.
fn ascii_lowercase(c: char) -> (res: char)
    ensures
        res == lowercase(c),
{
    if 'A' <= c && c <= 'Z' {
        ((c as u8) + 32) as char
    } else {
        c
    }
}

/// The character with code point `n`, if there is one (std's
/// `char::from_u32`: `None` exactly where `n` is a surrogate or above
/// U+10FFFF).
#[verifier::external_body]
pub(crate) fn char_from_u32(n: u32) -> (res: Option<char>)
    ensures
        !is_surrogate(n) && n <= 0x10ffff ==> res == Some(n as char),
        is_surrogate(n) || n > 0x10ffff ==> res is None,
{
    char::from_u32(n)
}

} // verus!
verus! {

impl Tokenizer {
    /// A tokenizer at the start of `input`, in the data state.
    pub fn new(input: &str) -> (res: Self)
        ensures
            res@ == initial_model(input@, Seq::empty()),
    {
        let res = Tokenizer {
            input: chars_of(input),
            state: State::Data,
            return_state: None,
            temporary_buffer: Vec::new(),
            named_references: Vec::new(),
            candidates: Vec::new(),
            last_start_tag_name: None,
            tokens: Vec::new(),
            insertion_point: None,
            current_input_character: None,
            token_emitted: false,
            current_building_token: None,
            current_attribute: None,
            character_reference_code: 0,
        };
        assert(char_seqs(res.named_references@) =~= Seq::<Seq<char>>::empty());
        assert(char_seqs(res.candidates@) =~= Seq::<Seq<char>>::empty());
        assert(token_models(res.tokens@) =~= Seq::<TokenModel>::empty());
        res
    }

    /// A tokenizer at the start of `input` that knows the named character
    /// references `names`.
    pub fn with_named_character_references(input: &str, names: &Vec<String>) -> (res: Self)
        ensures
            res@ == initial_model(input@, names@.map_values(|n: String| n@)),
    {
        let mut res = Self::new(input);
        let mut table: Vec<Vec<char>> = Vec::new();
        let mut i: usize = 0;
        while i < names.len()
            invariant
                i <= names.len(),
                char_seqs(table@) == names@.map_values(|n: String| n@).take(i as int),
            decreases names.len() - i,
        {
            let cs = chars_of(names[i].as_str());
            let ghost before = table@;
            assert(char_seqs(before).len() == before.len());
            table.push(cs);
            assert forall|j: int| 0 <= j < before.len() implies #[trigger] char_seqs(table@)[j]
                == names@.map_values(|n: String| n@)[j] by {
                assert(table@[j] == before[j]);
                assert(char_seqs(before)[j] == names@.map_values(|n: String| n@).take(
                    i as int,
                )[j]);
            }
            i += 1;
            assert(char_seqs(table@) =~= names@.map_values(|n: String| n@).take(i as int));
        }
        assert(names@.map_values(|n: String| n@).take(names.len() as int) =~= names@.map_values(
            |n: String| n@,
        ));
        res.named_references = table;
        res
    }

    /// Switches to state `state`.
    /// The number of tokens emitted so far.
    pub fn token_count(&self) -> (res: usize)
        ensures
            res == self@.tokens.len(),
    {
        self.tokens.len()
    }

    pub fn switch_to(&mut self, state: State)
        ensures
            final(self)@ == switched(old(self)@, state),
    {
        self.state = state;
    }

    /// The current state.
    pub fn state(&self) -> (res: State)
        ensures
            res == self@.state,
    {
        self.state
    }

    /// Sets the insertion point.
    pub fn set_insertion_point(&mut self, insertion_point: Option<usize>)
        ensures
            final(self)@ == (TokenizerModel { insertion_point, ..old(self)@ }),
    {
        self.insertion_point = insertion_point;
    }

    /// The last token emitted, if any.
    pub fn current_token(&self) -> (res: Option<&Token>)
        ensures
            match last_token(self@) {
                Some(t) => res matches Some(r) && r@ == t,
                None => res is None,
            },
    {
        let n = self.tokens.len();
        if n > 0 {
            Some(&self.tokens[n - 1])
        } else {
            None
        }
    }

    /// Whether the current end tag token is an appropriate end tag token:
    /// whether its name is that of the last start tag emitted.
    pub fn current_end_tag_token_is_an_appropriate_end_tag_token(&self) -> (res: bool)
        requires
            appropriate_end_tag(self@) is Some,
        ensures
            res == appropriate_end_tag(self@).unwrap(),
    {
        match &self.current_building_token {
            Some(Token::EndTag { name, .. }) => match &self.last_start_tag_name {
                Some(last) => crate::text::str_eq(last.as_str(), name.as_str()),
                None => false,
            },
            _ => false,
        }
    }

    fn next_input_character(&mut self) -> (res: Option<char>)
        ensures
            final(self)@ == looked_at(old(self)@),
            res == next_char(old(self)@),
    {
        let i = match self.insertion_point {
            Some(i) => i,
            None => 0,
        };
        self.insertion_point = Some(i);
        if i < self.input.len() {
            Some(self.input[i])
        } else {
            None
        }
    }

    fn consume_next_input_character(&mut self) -> (ok: bool)
        ensures
            ok == (consumed(old(self)@) is Some),
            ok ==> final(self)@ == consumed(old(self)@).unwrap(),
    {
        let i = match self.insertion_point {
            Some(i) => i,
            None => 0,
        };
        if i == usize::MAX {
            return false;
        }
        let c = if i < self.input.len() {
            Some(self.input[i])
        } else {
            None
        };
        self.current_input_character = c;
        self.insertion_point = Some(i + 1);
        true
    }

    fn reconsume_in(&mut self, state: State) -> (ok: bool)
        ensures
            ok == (reconsumed(old(self)@, state) is Some),
            ok ==> final(self)@ == reconsumed(old(self)@, state).unwrap(),
    {
        match self.insertion_point {
            Some(i) => {
                if i == 0 {
                    return false;
                }
                self.insertion_point = Some(i - 1);
            },
            None => {},
        }
        self.state = state;
        true
    }

    fn reconsume_in_return_state(&mut self) -> (ok: bool)
        ensures
            ok == (reconsumed_in_return_state(old(self)@) is Some),
            ok ==> final(self)@ == reconsumed_in_return_state(old(self)@).unwrap(),
    {
        match self.return_state {
            Some(r) => {
                if !self.reconsume_in(r) {
                    return false;
                }
                self.return_state = None;
                true
            },
            None => true,
        }
    }

    fn switch_to_return_state(&mut self)
        ensures
            final(self)@ == switched_to_return_state(old(self)@),
    {
        match self.return_state {
            Some(r) => {
                self.state = r;
                self.return_state = None;
            },
            None => {},
        }
    }

    fn set_return_state(&mut self, state: State)
        ensures
            final(self)@ == with_return_state(old(self)@, state),
    {
        self.return_state = Some(state);
    }

    fn emit_token(&mut self, token: Token)
        ensures
            final(self)@ == emitted(old(self)@, token@),
    {
        let ghost tv = token@;
        match &token {
            Token::StartTag { name, .. } => {
                self.last_start_tag_name = Some(name.clone());
            },
            _ => {},
        }
        self.tokens.push(token);
        self.token_emitted = true;
        assert(token_models(self.tokens@) =~= token_models(old(self).tokens@).push(tv));
    }

    /// Emits a character token for each of `cs`, in order.
    fn emit_characters(&mut self, cs: &Vec<char>)
        ensures
            final(self)@ == emitted_characters(old(self)@, cs@),
    {
        let ghost target = emitted_characters(self@, cs@);
        let mut i: usize = 0;
        assert(cs@.skip(0) =~= cs@);
        while i < cs.len()
            invariant
                i <= cs.len(),
                emitted_characters(self@, cs@.skip(i as int)) == target,
            decreases cs.len() - i,
        {
            assert(cs@.skip(i as int)[0] == cs@[i as int]);
            assert(cs@.skip(i as int).drop_first() =~= cs@.skip(i + 1));
            self.emit_token(Token::Character { data: cs[i] });
            i += 1;
        }
        assert(cs@.skip(cs.len() as int) =~= Seq::<char>::empty());
    }

    fn push_current_attribute_to_current_tag(&mut self)
        ensures
            final(self)@ == attribute_pushed(old(self)@),
    {
        let attribute = self.current_attribute.take();
        match attribute {
            Some(attribute) => {
                let ghost av = attribute@;
                let token = self.current_building_token.take();
                self.current_building_token = match token {
                    Some(
                        Token::StartTag { name, self_closing, self_closing_acknowledged, attributes },
                    ) => {
                        let mut attributes = attributes;
                        let ghost before = attributes@;
                        attributes.push(attribute);
                        assert(attribute_models(attributes@) =~= attribute_models(before).push(
                            av,
                        ));
                        Some(
                            Token::StartTag {
                                name,
                                self_closing,
                                self_closing_acknowledged,
                                attributes,
                            },
                        )
                    },
                    other => other,
                };
            },
            None => {},
        }
    }

    fn emit_current_token(&mut self)
        ensures
            final(self)@ == emitted_current(old(self)@),
    {
        self.push_current_attribute_to_current_tag();
        let token = self.current_building_token.take();
        match token {
            Some(token) => {
                self.emit_token(token);
            },
            None => {},
        }
    }

    fn set_current_attribute(&mut self, attribute: Attribute)
        ensures
            final(self)@ == attribute_started(old(self)@, attribute@),
    {
        self.push_current_attribute_to_current_tag();
        self.current_attribute = Some(attribute);
    }

    fn flush_code_points_consumed_as_a_character_reference(&mut self)
        ensures
            final(self)@ == flushed(old(self)@),
    {
        let buffer = copy_chars(&self.temporary_buffer);
        let attribute = self.current_attribute.take();
        match attribute {
            Some(attribute) => {
                let mut value = attribute.value;
                let ghost v0 = value@;
                let mut i: usize = 0;
                while i < buffer.len()
                    invariant
                        i <= buffer.len(),
                        value@ == v0 + buffer@.take(i as int),
                    decreases buffer.len() - i,
                {
                    push_char(&mut value, buffer[i]);
                    i += 1;
                    assert(value@ =~= v0 + buffer@.take(i as int));
                }
                assert(buffer@.take(buffer.len() as int) =~= buffer@);
                self.current_attribute = Some(Attribute { name: attribute.name, value });
            },
            None => {
                self.emit_characters(&buffer);
            },
        }
    }

    fn create_new_token(&mut self, token: Token)
        ensures
            final(self)@ == with_token(old(self)@, token@),
    {
        self.current_building_token = Some(token);
    }

    fn append_to_tag_name(&mut self, c: char)
        ensures
            final(self)@ == tag_name_appended(old(self)@, c),
    {
        let token = self.current_building_token.take();
        self.current_building_token = match token {
            Some(Token::StartTag { name, self_closing, self_closing_acknowledged, attributes }) => {
                let mut name = name;
                push_char(&mut name, c);
                Some(Token::StartTag { name, self_closing, self_closing_acknowledged, attributes })
            },
            Some(Token::EndTag { name, self_closing, attributes }) => {
                let mut name = name;
                push_char(&mut name, c);
                Some(Token::EndTag { name, self_closing, attributes })
            },
            other => other,
        };
    }

    fn append_to_attribute_name(&mut self, c: char)
        ensures
            final(self)@ == attribute_name_appended(old(self)@, c),
    {
        let attribute = self.current_attribute.take();
        self.current_attribute = match attribute {
            Some(a) => {
                let mut name = a.name;
                push_char(&mut name, c);
                Some(Attribute { name, value: a.value })
            },
            None => None,
        };
    }

    fn append_to_attribute_value(&mut self, c: char)
        ensures
            final(self)@ == attribute_value_appended(old(self)@, c),
    {
        let attribute = self.current_attribute.take();
        self.current_attribute = match attribute {
            Some(a) => {
                let mut value = a.value;
                push_char(&mut value, c);
                Some(Attribute { name: a.name, value })
            },
            None => None,
        };
    }

    fn append_to_doctype_name(&mut self, c: char)
        ensures
            final(self)@ == doctype_name_appended(old(self)@, c),
    {
        let token = self.current_building_token.take();
        self.current_building_token = match token {
            Some(
                Token::Doctype {
                    name: Some(name),
                    public_identifier,
                    system_identifier,
                    force_quirks,
                },
            ) => {
                let mut name = name;
                push_char(&mut name, c);
                Some(
                    Token::Doctype {
                        name: Some(name),
                        public_identifier,
                        system_identifier,
                        force_quirks,
                    },
                )
            },
            other => other,
        };
    }

    fn set_self_closing(&mut self)
        ensures
            final(self)@ == self_closing_set(old(self)@),
    {
        let token = self.current_building_token.take();
        self.current_building_token = match token {
            Some(Token::StartTag { name, self_closing_acknowledged, attributes, .. }) => Some(
                Token::StartTag { name, self_closing: true, self_closing_acknowledged, attributes },
            ),
            other => other,
        };
    }

    fn clear_temporary_buffer(&mut self)
        ensures
            final(self)@ == (TokenizerModel { temporary_buffer: Seq::empty(), ..old(self)@ }),
    {
        self.temporary_buffer = Vec::new();
    }

    fn append_to_temporary_buffer(&mut self, c: char)
        ensures
            final(self)@ == (TokenizerModel {
                temporary_buffer: old(self)@.temporary_buffer.push(c),
                ..old(self)@
            }),
    {
        self.temporary_buffer.push(c);
    }
}

} // verus!
verus! {

/// Tab, line feed, form feed or space.
fn is_whitespace_char(c: char) -> (res: bool)
    ensures
        res == is_html_whitespace(c),
{
    c == '\t' || c == '\n' || c == '\u{0C}' || c == ' '
}

fn is_alpha_char(c: char) -> (res: bool)
    ensures
        res == is_alpha(c),
{
    ('A' <= c && c <= 'Z') || ('a' <= c && c <= 'z')
}

fn is_alphanumeric_char(c: char) -> (res: bool)
    ensures
        res == is_alphanumeric(c),
{
    ('0' <= c && c <= '9') || is_alpha_char(c)
}

fn is_hex_digit_char(c: char) -> (res: bool)
    ensures
        res == is_hex_digit(c),
{
    ('0' <= c && c <= '9') || ('A' <= c && c <= 'F') || ('a' <= c && c <= 'f')
}

impl Tokenizer {
    fn text_state(&mut self, amp: Option<State>, less_than: State, replace_null: bool) -> (ok: bool)
        ensures
            stepped(final(self)@, ok, text_state(old(self)@, amp, less_than, replace_null)),
    {
        if !self.consume_next_input_character() {
            return false;
        }
        match self.current_input_character {
            Some(c) => {
                if c == '&' && amp.is_some() {
                    self.set_return_state(amp.unwrap());
                    self.switch_to(State::CharacterReference);
                    true
                } else if c == '<' {
                    self.switch_to(less_than);
                    true
                } else if c == '\u{0}' {
                    if replace_null {
                        self.emit_token(Token::Character { data: '\u{FFFD}' });
                        true
                    } else {
                        false
                    }
                } else {
                    self.emit_token(Token::Character { data: c });
                    true
                }
            },
            None => {
                self.emit_token(Token::EndOfFile);
                true
            },
        }
    }

    fn tag_open_state(&mut self) -> (ok: bool)
        ensures
            stepped(final(self)@, ok, tag_open_state(old(self)@)),
    {
        if !self.consume_next_input_character() {
            return false;
        }
        match self.current_input_character {
            Some(c) => {
                if c == '!' {
                    self.switch_to(State::MarkupDeclarationOpen);
                    true
                } else if c == '/' {
                    self.switch_to(State::EndTagOpen);
                    true
                } else if is_alpha_char(c) {
                    self.create_new_token(
                        Token::StartTag {
                            name: String::new(),
                            self_closing: false,
                            self_closing_acknowledged: false,
                            attributes: Vec::new(),
                        },
                    );
                    proof {
                        assert(attribute_models(Seq::<Attribute>::empty()) =~= Seq::<
                            AttributeModel,
                        >::empty());
                    }
                    self.reconsume_in(State::TagName)
                } else {
                    false
                }
            },
            None => false,
        }
    }

    fn create_end_tag(&mut self)
        ensures
            final(self)@ == with_token(old(self)@, new_end_tag()),
    {
        self.create_new_token(
            Token::EndTag { name: String::new(), self_closing: false, attributes: Vec::new() },
        );
        assert(attribute_models(Seq::<Attribute>::empty()) =~= Seq::<AttributeModel>::empty());
    }

    fn end_tag_open_state(&mut self) -> (ok: bool)
        ensures
            stepped(final(self)@, ok, end_tag_open_state(old(self)@)),
    {
        if !self.consume_next_input_character() {
            return false;
        }
        match self.current_input_character {
            Some(c) => {
                if is_alpha_char(c) {
                    self.create_end_tag();
                    self.reconsume_in(State::TagName)
                } else {
                    false
                }
            },
            None => false,
        }
    }

    fn tag_name_state(&mut self) -> (ok: bool)
        ensures
            stepped(final(self)@, ok, tag_name_state(old(self)@)),
    {
        if !self.consume_next_input_character() {
            return false;
        }
        match self.current_input_character {
            Some(c) => {
                if is_whitespace_char(c) {
                    self.switch_to(State::BeforeAttributeName);
                    true
                } else if c == '/' {
                    self.switch_to(State::SelfClosingStartTag);
                    true
                } else if c == '>' {
                    self.switch_to(State::Data);
                    self.emit_current_token();
                    true
                } else if c == '\u{0}' {
                    false
                } else {
                    let lower = ascii_lowercase(c);
                    self.append_to_tag_name(lower);
                    true
                }
            },
            None => false,
        }
    }

    fn less_than_sign_state(&mut self, end_tag_open: State, text: State) -> (ok: bool)
        ensures
            stepped(final(self)@, ok, less_than_sign_state(old(self)@, end_tag_open, text)),
    {
        if !self.consume_next_input_character() {
            return false;
        }
        if self.current_input_character == Some('/') {
            self.clear_temporary_buffer();
            self.switch_to(end_tag_open);
            true
        } else {
            self.emit_token(Token::Character { data: '<' });
            self.reconsume_in(text)
        }
    }

    fn script_data_less_than_sign_state(&mut self) -> (ok: bool)
        ensures
            stepped(final(self)@, ok, script_data_less_than_sign_state(old(self)@)),
    {
        if !self.consume_next_input_character() {
            return false;
        }
        if self.current_input_character == Some('/') {
            self.clear_temporary_buffer();
            self.switch_to(State::ScriptDataEndTagOpen);
            true
        } else if self.current_input_character == Some('!') {
            self.switch_to(State::ScriptDataEscapeStart);
            self.emit_token(Token::Character { data: '<' });
            self.emit_token(Token::Character { data: '!' });
            true
        } else {
            self.emit_token(Token::Character { data: '<' });
            self.reconsume_in(State::ScriptData)
        }
    }

    fn text_end_tag_open_state(&mut self, end_tag_name: State, text: State) -> (ok: bool)
        ensures
            stepped(final(self)@, ok, text_end_tag_open_state(old(self)@, end_tag_name, text)),
    {
        if !self.consume_next_input_character() {
            return false;
        }
        let alpha = match self.current_input_character {
            Some(c) => is_alpha_char(c),
            None => false,
        };
        if alpha {
            self.create_end_tag();
            self.reconsume_in(end_tag_name)
        } else {
            self.emit_token(Token::Character { data: '<' });
            self.emit_token(Token::Character { data: '/' });
            self.reconsume_in(text)
        }
    }

    /// Emits `</` and the temporary buffer as text, and reconsumes in `text`.
    fn end_tag_as_text(&mut self, text: State) -> (ok: bool)
        ensures
            stepped(final(self)@, ok, end_tag_as_text(old(self)@, text)),
    {
        let buffer = copy_chars(&self.temporary_buffer);
        self.emit_token(Token::Character { data: '<' });
        self.emit_token(Token::Character { data: '/' });
        self.emit_characters(&buffer);
        self.reconsume_in(text)
    }

    fn text_end_tag_name_state(&mut self, text: State) -> (ok: bool)
        ensures
            stepped(final(self)@, ok, text_end_tag_name_state(old(self)@, text)),
    {
        if !self.consume_next_input_character() {
            return false;
        }
        match self.current_input_character {
            Some(c) => {
                if is_whitespace_char(c) || c == '/' || c == '>' {
                    if !matches!(self.current_building_token, Some(Token::EndTag { .. })) {
                        return false;
                    }
                    if self.current_end_tag_token_is_an_appropriate_end_tag_token() {
                        if is_whitespace_char(c) {
                            self.switch_to(State::BeforeAttributeName);
                        } else if c == '/' {
                            self.switch_to(State::SelfClosingStartTag);
                        } else {
                            self.switch_to(State::Data);
                            self.emit_current_token();
                        }
                        true
                    } else {
                        self.end_tag_as_text(text)
                    }
                } else if 'A' <= c && c <= 'Z' {
                    false
                } else if 'a' <= c && c <= 'z' {
                    self.append_to_tag_name(c);
                    self.append_to_temporary_buffer(c);
                    true
                } else {
                    self.end_tag_as_text(text)
                }
            },
            None => self.end_tag_as_text(text),
        }
    }

    fn new_attribute(&mut self)
        ensures
            final(self)@ == attribute_started(old(self)@, empty_attribute()),
    {
        self.set_current_attribute(Attribute { name: String::new(), value: String::new() });
    }

    fn before_attribute_name_state(&mut self) -> (ok: bool)
        ensures
            stepped(final(self)@, ok, before_attribute_name_state(old(self)@)),
    {
        if !self.consume_next_input_character() {
            return false;
        }
        match self.current_input_character {
            Some(c) => {
                if is_whitespace_char(c) {
                    true
                } else if c == '/' || c == '>' {
                    self.reconsume_in(State::AfterAttributeName)
                } else if c == '=' {
                    false
                } else {
                    self.new_attribute();
                    self.reconsume_in(State::AttributeName)
                }
            },
            None => self.reconsume_in(State::AfterAttributeName),
        }
    }

    fn attribute_name_state(&mut self) -> (ok: bool)
        ensures
            stepped(final(self)@, ok, attribute_name_state(old(self)@)),
    {
        if !self.consume_next_input_character() {
            return false;
        }
        match self.current_input_character {
            Some(c) => {
                if is_whitespace_char(c) || c == '/' || c == '>' {
                    self.reconsume_in(State::AfterAttributeName)
                } else if c == '=' {
                    self.switch_to(State::BeforeAttributeValue);
                    true
                } else if c == '\u{0}' {
                    false
                } else {
                    let lower = ascii_lowercase(c);
                    self.append_to_attribute_name(lower);
                    true
                }
            },
            None => self.reconsume_in(State::AfterAttributeName),
        }
    }

    fn after_attribute_name_state(&mut self) -> (ok: bool)
        ensures
            stepped(final(self)@, ok, after_attribute_name_state(old(self)@)),
    {
        if !self.consume_next_input_character() {
            return false;
        }
        match self.current_input_character {
            Some(c) => {
                if is_whitespace_char(c) {
                    true
                } else if c == '/' {
                    self.switch_to(State::SelfClosingStartTag);
                    true
                } else if c == '=' {
                    self.switch_to(State::BeforeAttributeValue);
                    true
                } else if c == '>' {
                    self.switch_to(State::Data);
                    self.emit_current_token();
                    true
                } else {
                    self.new_attribute();
                    self.reconsume_in(State::AttributeName)
                }
            },
            None => false,
        }
    }

    fn before_attribute_value_state(&mut self) -> (ok: bool)
        ensures
            stepped(final(self)@, ok, before_attribute_value_state(old(self)@)),
    {
        if !self.consume_next_input_character() {
            return false;
        }
        match self.current_input_character {
            Some(c) => {
                if is_whitespace_char(c) {
                    true
                } else if c == '"' {
                    self.switch_to(State::AttributeValueDoubleQuoted);
                    true
                } else if c == '\'' {
                    self.switch_to(State::AttributeValueSingleQuoted);
                    true
                } else if c == '>' {
                    false
                } else {
                    self.reconsume_in(State::AttributeValueUnquoted)
                }
            },
            None => true,
        }
    }

    fn quoted_attribute_value_state(&mut self, quote: char, this: State) -> (ok: bool)
        ensures
            stepped(final(self)@, ok, quoted_attribute_value_state(old(self)@, quote, this)),
    {
        if !self.consume_next_input_character() {
            return false;
        }
        match self.current_input_character {
            Some(c) => {
                if c == quote {
                    self.switch_to(State::AfterAttributeValueQuoted);
                    true
                } else if c == '&' {
                    self.set_return_state(this);
                    self.switch_to(State::CharacterReference);
                    true
                } else if c == '\u{0}' {
                    false
                } else {
                    self.append_to_attribute_value(c);
                    true
                }
            },
            None => false,
        }
    }

    fn unquoted_attribute_value_state(&mut self) -> (ok: bool)
        ensures
            stepped(final(self)@, ok, unquoted_attribute_value_state(old(self)@)),
    {
        if !self.consume_next_input_character() {
            return false;
        }
        match self.current_input_character {
            Some(c) => {
                if is_whitespace_char(c) {
                    self.switch_to(State::BeforeAttributeName);
                    true
                } else if c == '&' {
                    false
                } else if c == '>' {
                    self.switch_to(State::Data);
                    self.emit_current_token();
                    true
                } else if c == '\u{0}' {
                    false
                } else {
                    self.append_to_attribute_value(c);
                    true
                }
            },
            None => false,
        }
    }

    fn after_attribute_value_quoted_state(&mut self) -> (ok: bool)
        ensures
            stepped(final(self)@, ok, after_attribute_value_quoted_state(old(self)@)),
    {
        if !self.consume_next_input_character() {
            return false;
        }
        match self.current_input_character {
            Some(c) => {
                if is_whitespace_char(c) {
                    self.switch_to(State::BeforeAttributeName);
                    true
                } else if c == '/' {
                    self.switch_to(State::SelfClosingStartTag);
                    true
                } else if c == '>' {
                    self.switch_to(State::Data);
                    self.emit_current_token();
                    true
                } else {
                    self.reconsume_in(State::BeforeAttributeName)
                }
            },
            None => false,
        }
    }

    fn self_closing_start_tag_state(&mut self) -> (ok: bool)
        ensures
            stepped(final(self)@, ok, self_closing_start_tag_state(old(self)@)),
    {
        if !self.consume_next_input_character() {
            return false;
        }
        if self.current_input_character == Some('>') {
            self.set_self_closing();
            self.emit_current_token();
            self.switch_to(State::Data);
            true
        } else {
            false
        }
    }

    /// Whether the next characters match `w` in any ASCII case; `None`
    /// where fewer characters are left.
    fn next_characters_are_ascii_case_insensitive(&self, w: &Vec<char>) -> (res: Option<bool>)
        ensures
            res == next_chars_match(self@, w@),
    {
        match self.insertion_point {
            None => Some(false),
            Some(i) => {
                if w.len() > self.input.len() || i > self.input.len() - w.len() {
                    return None;
                }
                let mut all = true;
                let mut k: usize = 0;
                while k < w.len()
                    invariant
                        k <= w.len(),
                        i + w.len() <= self.input.len(),
                        all == (forall|j: int|
                            0 <= j < k ==> lowercase(#[trigger] self.input@[i + j]) == lowercase(
                                w@[j],
                            )),
                    decreases w.len() - k,
                {
                    if ascii_lowercase(self.input[i + k]) != ascii_lowercase(w[k]) {
                        all = false;
                    }
                    k += 1;
                }
                Some(all)
            },
        }
    }

    fn consume_characters(&mut self, n: usize)
        requires
            old(self).insertion_point matches Some(i) ==> i + n <= old(self).input@.len(),
        ensures
            final(self)@ == skipped(old(self)@, n as int),
    {
        match self.insertion_point {
            Some(i) => {
                assert(self.input@.len() == self.input.len());
                self.insertion_point = Some(i + n);
            },
            None => {},
        }
    }

    fn markup_declaration_open_state(&mut self) -> (ok: bool)
        ensures
            stepped(final(self)@, ok, markup_declaration_open_state(old(self)@)),
    {
        let two_hyphens = vec!['-', '-'];
        proof {
            assert(two_hyphens@ =~= hyphens());
        }
        match self.next_characters_are_ascii_case_insensitive(&two_hyphens) {
            None => false,
            Some(true) => {
                self.consume_characters(2);
                self.create_new_token(Token::Comment { data: String::new() });
                self.switch_to(State::CommentStart);
                true
            },
            Some(false) => {
                let word = vec!['D', 'O', 'C', 'T', 'Y', 'P', 'E'];
                proof {
                    assert(word@ =~= doctype_word());
                }
                match self.next_characters_are_ascii_case_insensitive(&word) {
                    Some(true) => {
                        self.consume_characters(7);
                        self.switch_to(State::Doctype);
                        true
                    },
                    _ => false,
                }
            },
        }
    }

    fn comment_start_state(&mut self) -> (ok: bool)
        ensures
            stepped(final(self)@, ok, comment_start_state(old(self)@)),
    {
        if !self.consume_next_input_character() {
            return false;
        }
        if self.current_input_character == Some('-') {
            self.switch_to(State::CommentStartDash);
            true
        } else if self.current_input_character == Some('>') {
            self.switch_to(State::Data);
            self.emit_current_token();
            true
        } else {
            self.reconsume_in(State::Comment)
        }
    }

    fn doctype_state(&mut self) -> (ok: bool)
        ensures
            stepped(final(self)@, ok, doctype_state(old(self)@)),
    {
        if !self.consume_next_input_character() {
            return false;
        }
        match self.current_input_character {
            Some(c) => {
                if is_whitespace_char(c) {
                    self.switch_to(State::BeforeDoctypeName);
                    true
                } else {
                    false
                }
            },
            None => false,
        }
    }

    fn before_doctype_name_state(&mut self) -> (ok: bool)
        ensures
            stepped(final(self)@, ok, before_doctype_name_state(old(self)@)),
    {
        if !self.consume_next_input_character() {
            return false;
        }
        match self.current_input_character {
            Some(c) => {
                if is_whitespace_char(c) {
                    true
                } else if c == '\u{0}' || c == '>' {
                    false
                } else {
                    let mut name = String::new();
                    push_char(&mut name, c);
                    assert(name@ =~= seq![c]);
                    self.create_new_token(
                        Token::Doctype {
                            name: Some(name),
                            public_identifier: None,
                            system_identifier: None,
                            force_quirks: false,
                        },
                    );
                    self.switch_to(State::DoctypeName);
                    true
                }
            },
            None => {
                self.emit_token(
                    Token::Doctype {
                        name: None,
                        public_identifier: None,
                        system_identifier: None,
                        force_quirks: true,
                    },
                );
                self.emit_token(Token::EndOfFile);
                true
            },
        }
    }

    fn doctype_name_state(&mut self) -> (ok: bool)
        ensures
            stepped(final(self)@, ok, doctype_name_state(old(self)@)),
    {
        if !self.consume_next_input_character() {
            return false;
        }
        match self.current_input_character {
            Some(c) => {
                if is_whitespace_char(c) {
                    self.switch_to(State::AfterDoctypeName);
                    true
                } else if c == '>' {
                    self.switch_to(State::Data);
                    self.emit_current_token();
                    true
                } else if c == '\u{0}' {
                    false
                } else {
                    let lower = ascii_lowercase(c);
                    self.append_to_doctype_name(lower);
                    true
                }
            },
            None => false,
        }
    }
}

} // verus!
verus! {

impl Tokenizer {
    fn character_reference_state(&mut self) -> (ok: bool)
        ensures
            stepped(final(self)@, ok, character_reference_state(old(self)@)),
    {
        self.temporary_buffer = vec!['&'];
        assert(self.temporary_buffer@ =~= seq!['&']);
        if !self.consume_next_input_character() {
            return false;
        }
        match self.current_input_character {
            Some(c) => {
                if is_alphanumeric_char(c) {
                    self.reconsume_in(State::NamedCharacterReference)
                } else if c == '#' {
                    self.append_to_temporary_buffer(c);
                    self.switch_to(State::NumericCharacterReference);
                    true
                } else {
                    self.flush_code_points_consumed_as_a_character_reference();
                    self.reconsume_in_return_state()
                }
            },
            None => {
                self.flush_code_points_consumed_as_a_character_reference();
                self.reconsume_in_return_state()
            },
        }
    }

    fn named_character_reference_state(&mut self) -> (ok: bool)
        ensures
            stepped(final(self)@, ok, named_character_reference_state(old(self)@)),
    {
        let ghost m0 = TokenizerModel { candidates: old(self)@.named_references, ..old(self)@ };
        self.candidates = copy_table(&self.named_references);
        assert(self@ == m0);
        loop
            invariant
                m0 == (TokenizerModel { candidates: old(self)@.named_references, ..old(self)@ }),
                candidates_matched(self@) == candidates_matched(m0),
            ensures
                candidates_matched(m0) == Some(self@),
            decreases usize::MAX + 2 - progress(self@),
        {
            if self.candidates.len() <= 1 {
                assert(self@.candidates.len() == self.candidates@.len());
                break;
            }
            let ghost before = self@;
            if !self.consume_next_input_character() {
                return false;
            }
            let c = match self.current_input_character {
                Some(c) => c,
                None => return false,
            };
            let next = advance_candidates(&self.candidates, c);
            self.candidates = next;
            self.append_to_temporary_buffer(c);
            assert(progress(self@) > progress(before));
        }
        let ghost m2 = self@;
        assert(candidates_matched(m0) == Some(m2));
        assert(m2.candidates.len() == self.candidates@.len());
        if self.candidates.len() > 0 {
            let ends_with_semicolon = self.temporary_buffer.len() > 0
                && self.temporary_buffer[self.temporary_buffer.len() - 1] == ';';
            if self.current_attribute.is_some() && !ends_with_semicolon {
                let next = self.next_input_character();
                match next {
                    Some(c) => {
                        if c == '=' || is_alphanumeric_char(c) {
                            self.flush_code_points_consumed_as_a_character_reference();
                            self.switch_to_return_state();
                        }
                    },
                    None => {},
                }
            }
            true
        } else {
            self.flush_code_points_consumed_as_a_character_reference();
            self.switch_to(State::AmbiguousAmpersand);
            true
        }
    }

    fn ambiguous_ampersand_state(&mut self) -> (ok: bool)
        ensures
            stepped(final(self)@, ok, ambiguous_ampersand_state(old(self)@)),
    {
        if !self.consume_next_input_character() {
            return false;
        }
        let alnum = match self.current_input_character {
            Some(c) => is_alphanumeric_char(c),
            None => false,
        };
        if alnum {
            let c = self.current_input_character.unwrap();
            if self.current_attribute.is_some() {
                self.append_to_attribute_value(c);
            } else {
                self.emit_token(Token::Character { data: c });
            }
            true
        } else {
            self.reconsume_in_return_state()
        }
    }

    fn numeric_character_reference_state(&mut self) -> (ok: bool)
        ensures
            stepped(final(self)@, ok, numeric_character_reference_state(old(self)@)),
    {
        if !self.consume_next_input_character() {
            return false;
        }
        self.character_reference_code = 0;
        match self.current_input_character {
            Some(c) => {
                if c == 'x' || c == 'X' {
                    self.append_to_temporary_buffer(c);
                    self.switch_to(State::HexadecimalCharacterReferenceStart);
                    true
                } else {
                    self.reconsume_in(State::DecimalCharacterReferenceStart)
                }
            },
            None => self.reconsume_in(State::DecimalCharacterReferenceStart),
        }
    }

    fn hexadecimal_character_reference_start_state(&mut self) -> (ok: bool)
        ensures
            stepped(final(self)@, ok, hexadecimal_character_reference_start_state(old(self)@)),
    {
        if !self.consume_next_input_character() {
            return false;
        }
        let hex = match self.current_input_character {
            Some(c) => is_hex_digit_char(c),
            None => false,
        };
        if hex {
            self.reconsume_in(State::HexadecimalCharacterReference)
        } else {
            self.flush_code_points_consumed_as_a_character_reference();
            self.reconsume_in_return_state()
        }
    }

    fn hexadecimal_character_reference_state(&mut self) -> (ok: bool)
        ensures
            stepped(final(self)@, ok, hexadecimal_character_reference_state(old(self)@)),
    {
        if !self.consume_next_input_character() {
            return false;
        }
        match self.current_input_character {
            Some(c) => {
                if is_hex_digit_char(c) {
                    let digit: u32 = if '0' <= c && c <= '9' {
                        (c as u32) - 0x30
                    } else if 'A' <= c && c <= 'F' {
                        (c as u32) - 0x37
                    } else {
                        (c as u32) - 0x57
                    };
                    let code: u64 = (self.character_reference_code as u64) * 16 + (digit as u64);
                    if code > 0xffff_ffff {
                        return false;
                    }
                    self.character_reference_code = code as u32;
                    true
                } else if c == ';' {
                    self.switch_to(State::NumericCharacterReferenceEnd);
                    true
                } else {
                    self.reconsume_in(State::NumericCharacterReferenceEnd)
                }
            },
            None => self.reconsume_in(State::NumericCharacterReferenceEnd),
        }
    }

    fn numeric_character_reference_end_state(&mut self) -> (ok: bool)
        ensures
            stepped(final(self)@, ok, numeric_character_reference_end_state(old(self)@)),
    {
        let n = self.character_reference_code;
        let noncharacter = (0xfdd0 <= n && n <= 0xfdef) || ((n % 0x10000 == 0xfffe || n % 0x10000
            == 0xffff) && n <= 0x10ffff);
        if n == 0 || (0xd800 <= n && n <= 0xdfff) || noncharacter || n >= 0x10ffff || n == 0x0d
            || n <= 0x1f || (0x7f <= n && n <= 0x9f) {
            return false;
        }
        match char_from_u32(n) {
            Some(c) => {
                self.temporary_buffer = vec![c];
                assert(self.temporary_buffer@ =~= seq![n as char]);
                self.flush_code_points_consumed_as_a_character_reference();
                self.switch_to_return_state();
                true
            },
            None => false,
        }
    }

    /// One step of the tokenizer in its current state.
    fn step(&mut self) -> (ok: bool)
        ensures
            stepped(final(self)@, ok, step(old(self)@)),
    {
        match self.state {
            State::Data => self.text_state(Some(State::Data), State::TagOpen, false),
            State::RcData => self.text_state(Some(State::RcData), State::RcDataLessThanSign, true),
            State::RawText => self.text_state(None, State::RawTextLessThanSign, true),
            State::ScriptData => self.text_state(None, State::ScriptDataLessThanSign, true),
            State::TagOpen => self.tag_open_state(),
            State::EndTagOpen => self.end_tag_open_state(),
            State::TagName => self.tag_name_state(),
            State::RcDataLessThanSign => self.less_than_sign_state(
                State::RcDataEndTagOpen,
                State::RcData,
            ),
            State::RcDataEndTagOpen => self.text_end_tag_open_state(
                State::RcDataEndTagName,
                State::RcData,
            ),
            State::RcDataEndTagName => self.text_end_tag_name_state(State::RcData),
            State::RawTextLessThanSign => self.less_than_sign_state(
                State::RawTextEndTagOpen,
                State::RawText,
            ),
            State::RawTextEndTagOpen => self.text_end_tag_open_state(
                State::RawTextEndTagName,
                State::RawText,
            ),
            State::RawTextEndTagName => self.text_end_tag_name_state(State::RawText),
            State::ScriptDataLessThanSign => self.script_data_less_than_sign_state(),
            State::ScriptDataEndTagOpen => self.text_end_tag_open_state(
                State::ScriptDataEndTagName,
                State::ScriptData,
            ),
            State::ScriptDataEndTagName => self.text_end_tag_name_state(State::ScriptData),
            State::BeforeAttributeName => self.before_attribute_name_state(),
            State::AttributeName => self.attribute_name_state(),
            State::AfterAttributeName => self.after_attribute_name_state(),
            State::BeforeAttributeValue => self.before_attribute_value_state(),
            State::AttributeValueDoubleQuoted => self.quoted_attribute_value_state(
                '"',
                State::AttributeValueDoubleQuoted,
            ),
            State::AttributeValueSingleQuoted => self.quoted_attribute_value_state(
                '\'',
                State::AttributeValueSingleQuoted,
            ),
            State::AttributeValueUnquoted => self.unquoted_attribute_value_state(),
            State::AfterAttributeValueQuoted => self.after_attribute_value_quoted_state(),
            State::SelfClosingStartTag => self.self_closing_start_tag_state(),
            State::MarkupDeclarationOpen => self.markup_declaration_open_state(),
            State::CommentStart => self.comment_start_state(),
            State::Doctype => self.doctype_state(),
            State::BeforeDoctypeName => self.before_doctype_name_state(),
            State::DoctypeName => self.doctype_name_state(),
            State::CharacterReference => self.character_reference_state(),
            State::NamedCharacterReference => self.named_character_reference_state(),
            State::AmbiguousAmpersand => self.ambiguous_ampersand_state(),
            State::NumericCharacterReference => self.numeric_character_reference_state(),
            State::HexadecimalCharacterReferenceStart => self.hexadecimal_character_reference_start_state(),
            State::HexadecimalCharacterReference => self.hexadecimal_character_reference_state(),
            State::NumericCharacterReferenceEnd => self.numeric_character_reference_end_state(),
            _ => false,
        }
    }

    /// Runs the tokenizer until it emits a token, and gives the last token
    /// emitted; `None` once the end-of-file token has been emitted.
    pub fn next_token(&mut self) -> (res: Option<&Token>)
        requires
            at_end(old(self)@) || exists|f: nat| emits_within(old(self)@, f),
        ensures
            at_end(old(self)@) ==> res is None && final(self)@ == (TokenizerModel {
                token_emitted: false,
                ..old(self)@
            }),
            !at_end(old(self)@) ==> final(self)@ == after_next_token(old(self)@),
            !at_end(old(self)@) ==> match last_token(final(self)@) {
                Some(t) => res matches Some(r) && r@ == t,
                None => res is None,
            },
    {
        self.token_emitted = false;
        let n = self.tokens.len();
        if n > 0 && matches!(self.tokens[n - 1], Token::EndOfFile) {
            return None;
        }
        let ghost m0 = self@;
        let ghost f0 = choose|f: nat| emits_within(old(self)@, f);
        proof {
            assert(m0 == (TokenizerModel { token_emitted: false, ..old(self)@ }));
            assert(!at_end(old(self)@));
        }
        let ghost mut fuel: nat = f0;
        while !self.token_emitted
            invariant
                run(self@, fuel) == run(m0, f0),
                run(m0, f0) is Emitted,
            decreases fuel,
        {
            let ok = self.step();
            proof {
                fuel = (fuel - 1) as nat;
            }
        }
        let n = self.tokens.len();
        assert(n == self@.tokens.len());
        if n > 0 {
            Some(&self.tokens[n - 1])
        } else {
            None
        }
    }

    /// Like `next_token`, but takes at most `max_steps` steps: `None` when
    /// the tokenizer meets an input that it does not handle, or has not
    /// emitted a token within the steps allowed.
    pub fn try_next_token(&mut self, max_steps: usize) -> (res: Option<Option<&Token>>)
        ensures
            at_end(old(self)@) ==> res == Some(None::<&Token>) && final(self)@ == (TokenizerModel {
                token_emitted: false,
                ..old(self)@
            }),
            !at_end(old(self)@) ==> (res is Some <==> emits_within(old(self)@, max_steps as nat)),
            !at_end(old(self)@) && res is Some ==> final(self)@ == after_next_token(old(self)@),
            !at_end(old(self)@) && res is Some ==> match last_token(final(self)@) {
                Some(t) => res matches Some(Some(r)) && r@ == t,
                None => res == Some(None::<&Token>),
            },
            !at_end(old(self)@) && res is Some ==> old(self)@.tokens.len() < final(self)@.tokens.len()
                <= usize::MAX,
    {
        self.token_emitted = false;
        let n = self.tokens.len();
        if n > 0 && matches!(self.tokens[n - 1], Token::EndOfFile) {
            return Some(None);
        }
        let ghost m0 = self@;
        proof {
            assert(m0 == (TokenizerModel { token_emitted: false, ..old(self)@ }));
        }
        let mut left: usize = max_steps;
        while !self.token_emitted
            invariant
                run(self@, left as nat) == run(m0, max_steps as nat),
                m0 == (TokenizerModel { token_emitted: false, ..old(self)@ }),
                !at_end(old(self)@),
            decreases left,
        {
            if left == 0 {
                return None;
            }
            let ok = self.step();
            if !ok {
                return None;
            }
            left = left - 1;
        }
        proof {
            if emits_within(old(self)@, max_steps as nat) {
                let f = choose|f: nat| emits_within(old(self)@, f);
                lemma_run_same_when_emitted(m0, f, max_steps as nat);
            }
            lemma_run_grows(m0, max_steps as nat);
        }
        let n = self.tokens.len();
        assert(n == self@.tokens.len());
        if n > 0 {
            Some(Some(&self.tokens[n - 1]))
        } else {
            Some(None)
        }
    }
}

} // verus!
verus! {

impl Token {
    /// Acknowledges the self-closing flag of a start tag token, if it is set.
    pub fn acknowledge_self_closing_flag_if_set(&mut self)
        requires
            old(self)@ is StartTag,
        ensures
            final(self)@ == match old(self)@ {
                TokenModel::StartTag { name, self_closing, self_closing_acknowledged, attributes } =>
                    TokenModel::StartTag {
                    name,
                    self_closing,
                    self_closing_acknowledged: self_closing_acknowledged || self_closing,
                    attributes,
                },
                other => other,
            },
    {
        match self {
            Token::StartTag { self_closing_acknowledged, self_closing, .. } => {
                if *self_closing {
                    *self_closing_acknowledged = true;
                }
            },
            _ => {},
        }
    }

    /// A copy of the token.
    pub fn copy(&self) -> (res: Token)
        ensures
            res@ == self@,
    {
        match self {
            Token::Doctype { name, public_identifier, system_identifier, force_quirks } => {
                Token::Doctype {
                    name: copy_opt(name),
                    public_identifier: copy_opt(public_identifier),
                    system_identifier: copy_opt(system_identifier),
                    force_quirks: *force_quirks,
                }
            },
            Token::StartTag { name, self_closing, self_closing_acknowledged, attributes } => {
                Token::StartTag {
                    name: owned(name.as_str()),
                    self_closing: *self_closing,
                    self_closing_acknowledged: *self_closing_acknowledged,
                    attributes: copy_attributes(attributes),
                }
            },
            Token::EndTag { name, self_closing, attributes } => Token::EndTag {
                name: owned(name.as_str()),
                self_closing: *self_closing,
                attributes: copy_attributes(attributes),
            },
            Token::Comment { data } => Token::Comment { data: owned(data.as_str()) },
            Token::Character { data } => Token::Character { data: *data },
            Token::EndOfFile => Token::EndOfFile,
        }
    }

    /// The tag name of a start or end tag token.
    pub fn tag_name(&self) -> (res: Option<String>)
        ensures
            match self@ {
                TokenModel::StartTag { name, .. } => res matches Some(n) && n@ == name,
                TokenModel::EndTag { name, .. } => res matches Some(n) && n@ == name,
                _ => res is None,
            },
    {
        match self {
            Token::StartTag { name, .. } => Some(name.clone()),
            Token::EndTag { name, .. } => Some(name.clone()),
            _ => None,
        }
    }
}

} // verus!
verus! {

/// The tokens `b` begin with the tokens `a`.
pub open spec fn tokens_extend(a: Seq<TokenModel>, b: Seq<TokenModel>) -> bool {
    a.len() <= b.len() && forall|i: int| 0 <= i < a.len() ==> b[i] == a[i]
}

proof fn lemma_emitted_characters_extend(m: TokenizerModel, cs: Seq<char>)
    ensures
        tokens_extend(m.tokens, emitted_characters(m, cs).tokens),
    decreases cs.len(),
{
    if cs.len() > 0 {
        let t = TokenModel::Character { data: cs[0] };
        let m1 = emitted(m, t);
        lemma_emitted_tokens(m, t);
        lemma_emitted_characters_extend(m1, cs.drop_first());
        lemma_emitted_extends(m, t);
        lemma_extends_trans(m.tokens, m1.tokens, emitted_characters(m1, cs.drop_first()).tokens);
    }
}

proof fn lemma_extends_trans(a: Seq<TokenModel>, b: Seq<TokenModel>, c: Seq<TokenModel>)
    requires
        tokens_extend(a, b),
        tokens_extend(b, c),
    ensures
        tokens_extend(a, c),
{
    assert forall|i: int| 0 <= i < a.len() implies c[i] == a[i] by {
        assert(c[i] == b[i]);
        assert(b[i] == a[i]);
    }
}

proof fn lemma_emitted_extends(m: TokenizerModel, t: TokenModel)
    ensures
        tokens_extend(m.tokens, emitted(m, t).tokens),
{
    let s = m.tokens;
    assert forall|i: int| 0 <= i < s.len() implies emitted(m, t).tokens[i] == s[i] by {
        assert(emitted(m, t).tokens == s.push(t));
    }
}

proof fn lemma_emitted_tokens(m: TokenizerModel, t: TokenModel)
    ensures
        emitted(m, t).tokens == m.tokens.push(t),
{
}

proof fn lemma_candidates_matched_keep_tokens(m: TokenizerModel)
    ensures
        candidates_matched(m) matches Some(m2) ==> m2.tokens == m.tokens,
    decreases usize::MAX + 2 - progress(m),
{
    if m.candidates.len() > 1 {
        match consumed(m) {
            Some(m1) => match m1.current_input_character {
                Some(c) => {
                    lemma_candidates_matched_keep_tokens(
                        TokenizerModel {
                            candidates: advanced_candidates(m1.candidates, c),
                            temporary_buffer: m1.temporary_buffer.push(c),
                            ..m1
                        },
                    );
                },
                None => {},
            },
            None => {},
        }
    }
}

proof fn lemma_flushed_extends(m: TokenizerModel)
    ensures
        tokens_extend(m.tokens, flushed(m).tokens),
{
    lemma_emitted_characters_extend(m, m.temporary_buffer);
}

proof fn lemma_end_tag_as_text_extends(m: TokenizerModel, text: State)
    ensures
        end_tag_as_text(m, text) matches Some(m2) ==> tokens_extend(m.tokens, m2.tokens),
{
    let m1 = emitted(
        emitted(m, TokenModel::Character { data: '<' }),
        TokenModel::Character { data: '/' },
    );
    lemma_emitted_characters_extend(m1, m.temporary_buffer);
}

proof fn lemma_simple_states_extend(m: TokenizerModel)
    requires
        !(m.state is RcDataEndTagName || m.state is RawTextEndTagName
            || m.state is ScriptDataEndTagName || m.state is CharacterReference
            || m.state is NamedCharacterReference || m.state is HexadecimalCharacterReferenceStart
            || m.state is NumericCharacterReferenceEnd),
    ensures
        step(m) matches Some(m2) ==> tokens_extend(m.tokens, m2.tokens),
{
}

proof fn lemma_end_tag_name_extends(m: TokenizerModel, text: State)
    ensures
        text_end_tag_name_state(m, text) matches Some(m2) ==> tokens_extend(m.tokens, m2.tokens),
{
    match consumed(m) {
        Some(m1) => {
            lemma_end_tag_as_text_extends(m1, text);
        },
        None => {},
    }
}

proof fn lemma_character_reference_extends(m: TokenizerModel)
    ensures
        character_reference_state(m) matches Some(m2) ==> tokens_extend(m.tokens, m2.tokens),
{
    match consumed(TokenizerModel { temporary_buffer: seq!['&'], ..m }) {
        Some(m1) => {
            lemma_flushed_extends(m1);
        },
        None => {},
    }
}

proof fn lemma_named_character_reference_extends(m: TokenizerModel)
    ensures
        named_character_reference_state(m) matches Some(m2) ==> tokens_extend(m.tokens, m2.tokens),
{
    lemma_candidates_matched_keep_tokens(TokenizerModel { candidates: m.named_references, ..m });
    match candidates_matched(TokenizerModel { candidates: m.named_references, ..m }) {
        Some(m2) => {
            lemma_flushed_extends(m2);
            lemma_flushed_extends(looked_at(m2));
        },
        None => {},
    }
}

proof fn lemma_hexadecimal_start_extends(m: TokenizerModel)
    ensures
        hexadecimal_character_reference_start_state(m) matches Some(m2) ==> tokens_extend(
            m.tokens,
            m2.tokens,
        ),
{
    match consumed(m) {
        Some(m1) => {
            lemma_flushed_extends(m1);
        },
        None => {},
    }
}

proof fn lemma_numeric_end_extends(m: TokenizerModel)
    ensures
        numeric_character_reference_end_state(m) matches Some(m2) ==> tokens_extend(
            m.tokens,
            m2.tokens,
        ),
{
    let n = m.character_reference_code;
    lemma_flushed_extends(TokenizerModel { temporary_buffer: seq![n as char], ..m });
}

/// One step of the tokenizer keeps every token emitted before.
pub proof fn lemma_step_extends(m: TokenizerModel)
    ensures
        step(m) matches Some(m2) ==> tokens_extend(m.tokens, m2.tokens),
{
    match m.state {
        State::RcDataEndTagName => lemma_end_tag_name_extends(m, State::RcData),
        State::RawTextEndTagName => lemma_end_tag_name_extends(m, State::RawText),
        State::ScriptDataEndTagName => lemma_end_tag_name_extends(m, State::ScriptData),
        State::CharacterReference => lemma_character_reference_extends(m),
        State::NamedCharacterReference => lemma_named_character_reference_extends(m),
        State::HexadecimalCharacterReferenceStart => lemma_hexadecimal_start_extends(m),
        State::NumericCharacterReferenceEnd => lemma_numeric_end_extends(m),
        _ => lemma_simple_states_extend(m),
    }
}

proof fn lemma_run_extends(m: TokenizerModel, fuel: nat)
    ensures
        run(m, fuel) matches Run::Emitted(m2) ==> tokens_extend(m.tokens, m2.tokens),
    decreases fuel,
{
    if !m.token_emitted && fuel > 0 {
        lemma_step_extends(m);
        match step(m) {
            Some(m1) => {
                lemma_run_extends(m1, (fuel - 1) as nat);
            },
            None => {},
        }
    }
}

/// A step marks a token as emitted only by emitting one: the tokens grow.
pub open spec fn emits_grow(m: TokenizerModel, m2: TokenizerModel) -> bool {
    m2.token_emitted ==> (m.token_emitted || m2.tokens.len() > m.tokens.len())
}

proof fn lemma_emitted_len(m: TokenizerModel, t: TokenModel)
    ensures
        emitted(m, t).tokens.len() == m.tokens.len() + 1,
        emitted(m, t).token_emitted,
{
}

proof fn lemma_emitted_characters_grow(m: TokenizerModel, cs: Seq<char>)
    ensures
        emitted_characters(m, cs).tokens.len() == m.tokens.len() + cs.len(),
        emitted_characters(m, cs).token_emitted == (m.token_emitted || cs.len() > 0),
    decreases cs.len(),
{
    if cs.len() > 0 {
        let t = TokenModel::Character { data: cs[0] };
        lemma_emitted_tokens(m, t);
        let e = emitted(m, t);
        let rest = cs.drop_first();
        lemma_emitted_characters_grow(e, rest);
        lemma_emitted_len(m, t);
        assert(emitted_characters(m, cs) == emitted_characters(e, rest));
    } else {
        assert(emitted_characters(m, cs) == m);
    }
}

proof fn lemma_flushed_grows(m: TokenizerModel)
    ensures
        emits_grow(m, flushed(m)),
{
    lemma_emitted_characters_grow(m, m.temporary_buffer);
}

proof fn lemma_candidates_matched_keep_flag(m: TokenizerModel)
    ensures
        candidates_matched(m) matches Some(m2) ==> m2.token_emitted == m.token_emitted,
    decreases usize::MAX + 2 - progress(m),
{
    if m.candidates.len() > 1 {
        match consumed(m) {
            Some(m1) => match m1.current_input_character {
                Some(c) => {
                    lemma_candidates_matched_keep_flag(
                        TokenizerModel {
                            candidates: advanced_candidates(m1.candidates, c),
                            temporary_buffer: m1.temporary_buffer.push(c),
                            ..m1
                        },
                    );
                },
                None => {},
            },
            None => {},
        }
    }
}

proof fn lemma_simple_states_grow(m: TokenizerModel)
    requires
        !(m.state is RcDataEndTagName || m.state is RawTextEndTagName
            || m.state is ScriptDataEndTagName || m.state is CharacterReference
            || m.state is NamedCharacterReference || m.state is HexadecimalCharacterReferenceStart
            || m.state is NumericCharacterReferenceEnd),
    ensures
        step(m) matches Some(m2) ==> emits_grow(m, m2),
{
}

proof fn lemma_end_tag_as_text_grows(m: TokenizerModel, text: State)
    ensures
        end_tag_as_text(m, text) matches Some(m2) ==> m2.token_emitted && m2.tokens.len()
            > m.tokens.len(),
{
    let m0 = emitted(m, TokenModel::Character { data: '<' });
    lemma_emitted_len(m, TokenModel::Character { data: '<' });
    let m1 = emitted(m0, TokenModel::Character { data: '/' });
    lemma_emitted_len(m0, TokenModel::Character { data: '/' });
    lemma_emitted_characters_grow(m1, m.temporary_buffer);
}

proof fn lemma_end_tag_name_grows(m: TokenizerModel, text: State)
    ensures
        text_end_tag_name_state(m, text) matches Some(m2) ==> emits_grow(m, m2),
{
    match consumed(m) {
        Some(m1) => {
            lemma_end_tag_as_text_grows(m1, text);
        },
        None => {},
    }
}

proof fn lemma_character_reference_grows(m: TokenizerModel)
    ensures
        character_reference_state(m) matches Some(m2) ==> emits_grow(m, m2),
{
    match consumed(TokenizerModel { temporary_buffer: seq!['&'], ..m }) {
        Some(m1) => {
            lemma_flushed_grows(m1);
        },
        None => {},
    }
}

proof fn lemma_named_character_reference_grows(m: TokenizerModel)
    ensures
        named_character_reference_state(m) matches Some(m2) ==> emits_grow(m, m2),
{
    let m0 = TokenizerModel { candidates: m.named_references, ..m };
    lemma_candidates_matched_keep_tokens(m0);
    lemma_candidates_matched_keep_flag(m0);
    match candidates_matched(m0) {
        Some(m2) => {
            lemma_flushed_grows(m2);
            lemma_flushed_grows(looked_at(m2));
        },
        None => {},
    }
}

proof fn lemma_hexadecimal_start_grows(m: TokenizerModel)
    ensures
        hexadecimal_character_reference_start_state(m) matches Some(m2) ==> emits_grow(m, m2),
{
    match consumed(m) {
        Some(m1) => {
            lemma_flushed_grows(m1);
        },
        None => {},
    }
}

proof fn lemma_numeric_end_grows(m: TokenizerModel)
    ensures
        numeric_character_reference_end_state(m) matches Some(m2) ==> emits_grow(m, m2),
{
    let n = m.character_reference_code;
    lemma_flushed_grows(TokenizerModel { temporary_buffer: seq![n as char], ..m });
}

/// One step marks a token as emitted only by emitting one.
proof fn lemma_step_grows(m: TokenizerModel)
    ensures
        step(m) matches Some(m2) ==> emits_grow(m, m2),
{
    match m.state {
        State::RcDataEndTagName => lemma_end_tag_name_grows(m, State::RcData),
        State::RawTextEndTagName => lemma_end_tag_name_grows(m, State::RawText),
        State::ScriptDataEndTagName => lemma_end_tag_name_grows(m, State::ScriptData),
        State::CharacterReference => lemma_character_reference_grows(m),
        State::NamedCharacterReference => lemma_named_character_reference_grows(m),
        State::HexadecimalCharacterReferenceStart => lemma_hexadecimal_start_grows(m),
        State::NumericCharacterReferenceEnd => lemma_numeric_end_grows(m),
        _ => lemma_simple_states_grow(m),
    }
}

/// A run from a state with no token marked as emitted ends with more
/// tokens than it started with.
proof fn lemma_run_grows(m: TokenizerModel, fuel: nat)
    requires
        !m.token_emitted,
    ensures
        run(m, fuel) matches Run::Emitted(m2) ==> m2.tokens.len() > m.tokens.len(),
    decreases fuel,
{
    if fuel > 0 {
        lemma_step_grows(m);
        lemma_step_extends(m);
        match step(m) {
            Some(m1) => {
                assert(run(m, fuel) == run(m1, (fuel - 1) as nat));
                assert(m1.tokens.len() >= m.tokens.len());
                if !m1.token_emitted {
                    lemma_run_grows(m1, (fuel - 1) as nat);
                } else {
                    assert(run(m1, (fuel - 1) as nat) == Run::Emitted(m1));
                }
            },
            None => {},
        }
    }
}

/// A run that emits within two numbers of steps ends in the same state.
proof fn lemma_run_same_when_emitted(m: TokenizerModel, f: nat, g: nat)
    requires
        run(m, f) is Emitted,
        run(m, g) is Emitted,
    ensures
        run(m, f) == run(m, g),
    decreases f,
{
    if !m.token_emitted && f > 0 && g > 0 {
        if let Some(m1) = step(m) {
            lemma_run_same_when_emitted(m1, (f - 1) as nat, (g - 1) as nat);
        }
    }
}

/// Asking for the next token never takes back a token emitted before: the
/// tokens emitted so far begin every later list of tokens.
pub proof fn lemma_next_token_keeps_tokens(m: TokenizerModel)
    requires
        exists|f: nat| emits_within(m, f),
    ensures
        tokens_extend(m.tokens, after_next_token(m).tokens),
{
    let f = choose|f: nat| emits_within(m, f);
    lemma_run_extends(TokenizerModel { token_emitted: false, ..m }, f);
}

} // verus!

verus! {

/// In the unquoted attribute value state, an ordinary character (not
/// whitespace, `&`, `>` or NUL) is appended to the current attribute's
/// value exactly as it is, whatever its case.
pub proof fn lemma_unquoted_attribute_value_keeps_characters(m: TokenizerModel)
    requires
        m.state == State::AttributeValueUnquoted,
        next_position(m) < m.input.len(),
        m.input.len() < usize::MAX,
        next_char(m) matches Some(c) && c != '&' && c != '\u{0}' && c != '>' && c != '\t' && c != '\n'
            && c != '\u{0C}' && c != ' ',
    ensures
        step(m) matches Some(m2) && m2.state == m.state && m2.tokens == m.tokens && m2.current_attribute
            == match m.current_attribute {
            Some(a) => Some(AttributeModel { name: a.name, value: a.value.push(m.input[next_position(m)]) }),
            None => None,
        },
{
}

/// In the attribute name state, an ordinary character (not whitespace,
/// `/`, `>`, `=` or NUL) is appended to the current attribute's name with
/// ASCII upper case letters lowered and everything else kept.
pub proof fn lemma_attribute_names_are_lowered(m: TokenizerModel)
    requires
        m.state == State::AttributeName,
        next_position(m) < m.input.len(),
        m.input.len() < usize::MAX,
        next_char(m) matches Some(c) && c != '=' && c != '\u{0}' && c != '>' && c != '/' && c != '\t'
            && c != '\n' && c != '\u{0C}' && c != ' ',
    ensures
        step(m) matches Some(m2) && m2.state == m.state && m2.tokens == m.tokens && m2.current_attribute
            == match m.current_attribute {
            Some(a) => Some(
                AttributeModel {
                    name: a.name.push(
                        if 'A' <= m.input[next_position(m)] && m.input[next_position(m)] <= 'Z' {
                            ((m.input[next_position(m)] as u32) + 32) as char
                        } else {
                            m.input[next_position(m)]
                        },
                    ),
                    value: a.value,
                },
            ),
            None => None,
        },
{
}

/// In the quoted attribute value states, an ordinary character (not the
/// closing quote, `&` or NUL) is appended to the current attribute's value
/// exactly as it is, whatever its case; the state stays, and no token is
/// emitted.
pub proof fn lemma_quoted_attribute_value_keeps_characters(m: TokenizerModel)
    requires
        m.state == State::AttributeValueDoubleQuoted || m.state == State::AttributeValueSingleQuoted,
        next_position(m) < m.input.len(),
        m.input.len() < usize::MAX,
        next_char(m) matches Some(c) && c != '&' && c != '\u{0}' && c != (if m.state
            == State::AttributeValueDoubleQuoted {
            '"'
        } else {
            '\''
        }),
    ensures
        step(m) matches Some(m2) && m2.state == m.state && m2.tokens == m.tokens && m2.current_attribute
            == match m.current_attribute {
            Some(a) => Some(AttributeModel { name: a.name, value: a.value.push(m.input[next_position(m)]) }),
            None => None,
        },
{
}

} // verus!
