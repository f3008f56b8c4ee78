//! A tokenizer for CSS, after the algorithms of "CSS Syntax Module Level 3".
//!
//! The tokenizer keeps a position into the input's characters: the character
//! at the position is the current input code point, the one after it the
//! next input code point. Numbers are kept as the text they were written
//! with.
use vstd::prelude::*;
use crate::text::{chars_of, is_whitespace, is_whitespace_spec, push_char};

verus! {

/// Whether a number was written as an integer or with a fraction/exponent.
#[derive(PartialEq, Eq, Structural, Debug, Clone, Copy)]
pub enum NumberType {
    Integer,
    Number,
}

/// A CSS token.
#[derive(PartialEq, Eq, Debug, Clone)]
pub enum Token {
    Whitespace,
    LeftParenthesis,
    RightParenthesis,
    Delim { value: char },
    Comma,
    Cdc,
    Colon,
    Semicolon,
    LeftSquareBracket,
    RightSquareBracket,
    LeftCurlyBracket,
    RightCurlyBracket,
    EndOfFile,
    Dimension { repr: String, number_type: NumberType, unit: String },
    Percentage { repr: String },
    Number { repr: String, number_type: NumberType },
    Function { value: String },
    Ident { value: String },
}

/// A token with its strings taken as character sequences.
pub enum TokenModel {
    Whitespace,
    LeftParenthesis,
    RightParenthesis,
    Delim { value: char },
    Comma,
    Cdc,
    Colon,
    Semicolon,
    LeftSquareBracket,
    RightSquareBracket,
    LeftCurlyBracket,
    RightCurlyBracket,
    EndOfFile,
    Dimension { repr: Seq<char>, number_type: NumberType, unit: Seq<char> },
    Percentage { repr: Seq<char> },
    Number { repr: Seq<char>, number_type: NumberType },
    Function { value: Seq<char> },
    Ident { value: Seq<char> },
}

impl View for Token {
    type V = TokenModel;

    open spec fn view(&self) -> TokenModel {
        match self {
            Token::Whitespace => TokenModel::Whitespace,
            Token::LeftParenthesis => TokenModel::LeftParenthesis,
            Token::RightParenthesis => TokenModel::RightParenthesis,
            Token::Delim { value } => TokenModel::Delim { value: *value },
            Token::Comma => TokenModel::Comma,
            Token::Cdc => TokenModel::Cdc,
            Token::Colon => TokenModel::Colon,
            Token::Semicolon => TokenModel::Semicolon,
            Token::LeftSquareBracket => TokenModel::LeftSquareBracket,
            Token::RightSquareBracket => TokenModel::RightSquareBracket,
            Token::LeftCurlyBracket => TokenModel::LeftCurlyBracket,
            Token::RightCurlyBracket => TokenModel::RightCurlyBracket,
            Token::EndOfFile => TokenModel::EndOfFile,
            Token::Dimension { repr, number_type, unit } => TokenModel::Dimension {
                repr: repr@,
                number_type: *number_type,
                unit: unit@,
            },
            Token::Percentage { repr } => TokenModel::Percentage { repr: repr@ },
            Token::Number { repr, number_type } => TokenModel::Number {
                repr: repr@,
                number_type: *number_type,
            },
            Token::Function { value } => TokenModel::Function { value: value@ },
            Token::Ident { value } => TokenModel::Ident { value: value@ },
        }
    }
}

/// Why tokenizing stopped early.
#[derive(PartialEq, Eq, Structural, Debug, Clone, Copy)]
pub enum CssParsingError {
    InvalidEndOfFile,
}

/// The result of running one step of the tokenizer from a position: a value
/// and the new position, an error and the position reached, or a construct
/// the tokenizer does not handle.
pub enum Outcome<T> {
    Done(T, int),
    Failed(CssParsingError, int),
    Unsupported,
}

// ---------------------------------------------------------------------
// Code point classes and checks.
// ---------------------------------------------------------------------

pub open spec fn is_digit(c: char) -> bool {
    '0' <= c && c <= '9'
}

pub open spec fn is_letter(c: char) -> bool {
    ('A' <= c && c <= 'Z') || ('a' <= c && c <= 'z')
}

pub open spec fn is_ident_start(c: char) -> bool {
    is_letter(c) || c >= '\u{80}' || c == '_'
}

pub open spec fn is_ident_char(c: char) -> bool {
    is_ident_start(c) || is_digit(c) || c == '-'
}

pub open spec fn is_css_whitespace(c: char) -> bool {
    c == '\n' || c == '\t' || c == ' '
}

/// The characters the tokenizer does not handle at the start of a token.
pub open spec fn is_unsupported_start(c: char) -> bool {
    c == '"' || c == '#' || c == '\'' || c == '.' || c == '<' || c == '@' || c == '\\'
}

/// The code point `k` places after position `p`, if there is one.
pub open spec fn peek(s: Seq<char>, p: int, k: int) -> Option<char> {
    if 0 <= p + k < s.len() {
        Some(s[p + k])
    } else {
        None
    }
}

/// The position after consuming one code point at `p`.
pub open spec fn advance(p: int) -> int {
    if p < usize::MAX {
        p + 1
    } else {
        p
    }
}

/// A code point, or the end of the input (`None`), is a digit.
pub open spec fn digit_at(c: Option<char>) -> bool {
    c matches Some(x) && is_digit(x)
}

/// A code point, or the end of the input (`None`), starts an ident.
pub open spec fn ident_start_at(c: Option<char>) -> bool {
    c matches Some(x) && is_ident_start(x)
}

/// Three code points, any of them the end of the input (`None`), would
/// start an ident sequence.
pub open spec fn would_start_an_ident_sequence(first: Option<char>, second: Option<char>, third: Option<char>) -> bool {
    if first == Some('-') {
        ident_start_at(second) || second == Some('-') || second == Some('\\')
    } else {
        ident_start_at(first) || first == Some('\\')
    }
}

/// Three code points, any of them the end of the input (`None`), would
/// start a number.
pub open spec fn would_start_a_number(first: Option<char>, second: Option<char>, third: Option<char>) -> bool {
    if first == Some('+') || first == Some('-') {
        digit_at(second) || (second == Some('.') && digit_at(third))
    } else if first == Some('.') {
        digit_at(second)
    } else {
        digit_at(first)
    }
}

/// The current and the next two code points at `p` start an ident sequence.
pub open spec fn starts_with_ident(s: Seq<char>, p: int) -> bool {
    would_start_an_ident_sequence(peek(s, p, 0), peek(s, p, 1), peek(s, p, 2))
}

/// The current and the next two code points at `p` start a number.
pub open spec fn starts_with_number(s: Seq<char>, p: int) -> bool {
    would_start_a_number(peek(s, p, 0), peek(s, p, 1), peek(s, p, 2))
}

/// The next two code points exist.
pub open spec fn has_next_two(s: Seq<char>, p: int) -> bool {
    peek(s, p, 1) is Some && peek(s, p, 2) is Some
}


// ---------------------------------------------------------------------
// The algorithms, as functions of the input and a position.
// ---------------------------------------------------------------------

/// Consuming comments from `p`: `inside` tells whether we are inside a
/// comment already.
pub open spec fn comments(s: Seq<char>, p: int, inside: bool) -> Outcome<()>
    decreases s.len() - p, if inside { 1int } else { 0int },
{
    if p < 0 || p >= s.len() {
        if inside {
            Outcome::Failed(CssParsingError::InvalidEndOfFile, p)
        } else {
            Outcome::Done((), p)
        }
    } else if !inside {
        if !has_next_two(s, p) {
            Outcome::Done((), p)
        } else if s[p + 1] == '/' && s[p + 2] == '*' {
            comments(s, p + 2, true)
        } else {
            Outcome::Done((), p)
        }
    } else {
        if !has_next_two(s, p) {
            Outcome::Failed(CssParsingError::InvalidEndOfFile, p)
        } else if s[p + 1] == '*' && s[p + 2] == '/' {
            comments(s, p + 2, false)
        } else {
            comments(s, p + 1, true)
        }
    }
}

/// The position after consuming all whitespace that follows `p`.
pub open spec fn whitespace_end(s: Seq<char>, p: int) -> int
    decreases s.len() - p,
{
    if 0 <= p && p + 1 < s.len() && is_whitespace_spec(s[p + 1]) {
        whitespace_end(s, p + 1)
    } else {
        p
    }
}

/// The position after consuming all digits that follow `p`.
pub open spec fn digits_end(s: Seq<char>, p: int) -> int
    decreases s.len() - p,
{
    if 0 <= p && p + 1 < s.len() && is_digit(s[p + 1]) {
        digits_end(s, p + 1)
    } else {
        p
    }
}

/// Consuming an ident sequence from `p`; `acc` is what was collected.
pub open spec fn ident_sequence(s: Seq<char>, p: int, acc: Seq<char>) -> Outcome<Seq<char>>
    decreases s.len() - p,
{
    if p < 0 || p + 1 >= s.len() {
        Outcome::Done(acc, advance(p))
    } else if is_ident_char(s[p + 1]) {
        ident_sequence(s, p + 1, acc.push(s[p + 1]))
    } else if s[p + 1] == '\\' {
        Outcome::Unsupported
    } else {
        Outcome::Done(acc, p)
    }
}

/// After the sign and integer digits: the optional fraction.
pub open spec fn number_fraction(s: Seq<char>, p: int) -> Outcome<NumberType> {
    if peek(s, p, 1) == Some('.') && digit_at(peek(s, p, 2)) {
        Outcome::Done(NumberType::Number, digits_end(s, p + 2))
    } else {
        Outcome::Done(NumberType::Integer, p)
    }
}

/// After the fraction: the optional exponent.
pub open spec fn number_exponent(s: Seq<char>, p: int, t: NumberType) -> Outcome<NumberType> {
    if peek(s, p, 1) == Some('E') || peek(s, p, 1) == Some('e') {
        if peek(s, p, 2) == Some('-') || peek(s, p, 2) == Some('+') {
            if digit_at(peek(s, p, 3)) {
                Outcome::Done(NumberType::Number, digits_end(s, p + 3))
            } else {
                Outcome::Done(t, p)
            }
        } else if digit_at(peek(s, p, 2)) {
            Outcome::Done(NumberType::Number, digits_end(s, p + 2))
        } else {
            Outcome::Done(t, p)
        }
    } else {
        Outcome::Done(t, p)
    }
}

/// Consuming a number from `p`: its type and the end position. Its text is
/// every code point consumed, `s[p + 1 ..= end]`.
pub open spec fn number(s: Seq<char>, p: int) -> Outcome<NumberType> {
    let p1 = if 0 <= p && p + 1 < s.len() && (s[p + 1] == '+' || s[p + 1] == '-') {
        p + 1
    } else {
        p
    };
    let p2 = digits_end(s, p1);
    match number_fraction(s, p2) {
        Outcome::Done(t, p3) => number_exponent(s, p3, t),
        Outcome::Failed(e, q) => Outcome::Failed(e, q),
        Outcome::Unsupported => Outcome::Unsupported,
    }
}

/// Consuming a numeric token from `p`.
pub open spec fn numeric_token(s: Seq<char>, p: int) -> Outcome<TokenModel> {
    match number(s, p) {
        Outcome::Done(t, q) => {
            let repr = s.subrange(p + 1, q + 1);
            if would_start_an_ident_sequence(peek(s, q, 1), peek(s, q, 2), peek(s, q, 3)) {
                match ident_sequence(s, q, Seq::empty()) {
                    Outcome::Done(unit, r) => Outcome::Done(
                        TokenModel::Dimension { repr, number_type: t, unit },
                        r,
                    ),
                    Outcome::Failed(e, r) => Outcome::Failed(e, r),
                    Outcome::Unsupported => Outcome::Unsupported,
                }
            } else if peek(s, q, 1) == Some('%') {
                Outcome::Done(TokenModel::Percentage { repr }, q + 1)
            } else {
                Outcome::Done(TokenModel::Number { repr, number_type: t }, q)
            }
        },
        Outcome::Failed(e, q) => Outcome::Failed(e, q),
        Outcome::Unsupported => Outcome::Unsupported,
    }
}

/// `s` is "url" in any ASCII case.
pub open spec fn is_url(s: Seq<char>) -> bool {
    &&& s.len() == 3
    &&& (s[0] == 'u' || s[0] == 'U')
    &&& (s[1] == 'r' || s[1] == 'R')
    &&& (s[2] == 'l' || s[2] == 'L')
}

/// Consuming an ident-like token from `p`.
pub open spec fn ident_like_token(s: Seq<char>, p: int) -> Outcome<TokenModel> {
    match ident_sequence(s, p, Seq::empty()) {
        Outcome::Done(value, q) => if is_url(value) {
            Outcome::Unsupported
        } else if peek(s, q, 1) == Some('(') {
            Outcome::Done(TokenModel::Function { value }, q + 1)
        } else {
            Outcome::Done(TokenModel::Ident { value }, q)
        },
        Outcome::Failed(e, q) => Outcome::Failed(e, q),
        Outcome::Unsupported => Outcome::Unsupported,
    }
}

/// The token for code point `c` consumed at position `q` (after comments).
pub open spec fn token_at(s: Seq<char>, q: int, c: char) -> Outcome<TokenModel> {
    if is_css_whitespace(c) {
        Outcome::Done(TokenModel::Whitespace, whitespace_end(s, q))
    } else if is_unsupported_start(c) {
        Outcome::Unsupported
    } else if c == '(' {
        Outcome::Done(TokenModel::LeftParenthesis, q)
    } else if c == ')' {
        Outcome::Done(TokenModel::RightParenthesis, q)
    } else if c == '+' {
        if starts_with_number(s, q) {
            numeric_token(s, q - 1)
        } else {
            Outcome::Done(TokenModel::Delim { value: c }, q)
        }
    } else if c == ',' {
        Outcome::Done(TokenModel::Comma, q)
    } else if c == '-' {
        if starts_with_number(s, q) {
            numeric_token(s, q - 1)
        } else if peek(s, q, 1) == Some('-') && peek(s, q, 2) == Some('>') {
            Outcome::Done(TokenModel::Cdc, advance(advance(q)))
        } else if starts_with_ident(s, q) {
            ident_like_token(s, q - 1)
        } else {
            Outcome::Done(TokenModel::Delim { value: c }, q)
        }
    } else if c == ':' {
        Outcome::Done(TokenModel::Colon, q)
    } else if c == ';' {
        Outcome::Done(TokenModel::Semicolon, q)
    } else if c == '[' {
        Outcome::Done(TokenModel::LeftSquareBracket, q)
    } else if c == ']' {
        Outcome::Done(TokenModel::RightSquareBracket, q)
    } else if c == '{' {
        Outcome::Done(TokenModel::LeftCurlyBracket, q)
    } else if c == '}' {
        Outcome::Done(TokenModel::RightCurlyBracket, q)
    } else if is_digit(c) {
        numeric_token(s, q - 1)
    } else if is_ident_start(c) {
        ident_like_token(s, q - 1)
    } else {
        Outcome::Done(TokenModel::Delim { value: c }, q)
    }
}

/// Consuming a token from `p`.
pub open spec fn a_token(s: Seq<char>, p: int) -> Outcome<TokenModel> {
    match comments(s, p, false) {
        Outcome::Done(_, p1) => {
            let q = advance(p1);
            match peek(s, q, 0) {
                None => Outcome::Done(TokenModel::EndOfFile, q),
                Some(c) => token_at(s, q, c),
            }
        },
        Outcome::Failed(e, p1) => Outcome::Failed(e, p1),
        Outcome::Unsupported => Outcome::Unsupported,
    }
}

/// Tokenizing from `p` for at most `fuel` tokens: the tokens up to and
/// including the end-of-file token, the error met first, or a construct
/// that is not handled. `None` when the fuel ran out.
pub open spec fn tokenize_from(s: Seq<char>, p: int, fuel: nat) -> Option<Outcome<Seq<TokenModel>>>
    decreases fuel,
{
    if fuel == 0 {
        None
    } else {
        match a_token(s, p) {
            Outcome::Done(TokenModel::EndOfFile, q) => Some(Outcome::Done(seq![TokenModel::EndOfFile], q)),
            Outcome::Done(t, q) => match tokenize_from(s, q, (fuel - 1) as nat) {
                Some(Outcome::Done(ts, r)) => Some(Outcome::Done(seq![t] + ts, r)),
                other => other,
            },
            Outcome::Failed(e, q) => Some(Outcome::Failed(e, q)),
            Outcome::Unsupported => Some(Outcome::Unsupported),
        }
    }
}
/// Tokenizing from `p` to its end: every token, the first error, or a
/// construct that is not handled. One token per code point, and the
/// end-of-file token, is enough fuel (see `Tokenizer::try_tokenize`).
pub open spec fn tokenize_spec(s: Seq<char>, p: int) -> Outcome<Seq<TokenModel>> {
    match tokenize_from(s, p, (s.len() + 2) as nat) {
        Some(o) => o,
        None => Outcome::Unsupported,
    }
}

/// The code point classes, as executable checks.
fn is_digit_char(c: char) -> (res: bool)
    ensures
        res == is_digit(c),
{
    '0' <= c && c <= '9'
}

fn is_ident_start_code_point(c: char) -> (res: bool)
    ensures
        res == is_ident_start(c),
{
    ('A' <= c && c <= 'Z') || ('a' <= c && c <= 'z') || c >= '\u{80}' || c == '_'
}

fn is_ident_code_point(c: char) -> (res: bool)
    ensures
        res == is_ident_char(c),
{
    is_ident_start_code_point(c) || is_digit_char(c) || c == '-'
}

/// Whether a code point, or the end of the input, is a digit.
fn digit_exec(c: Option<char>) -> (res: bool)
    ensures
        res == digit_at(c),
{
    match c {
        Some(x) => is_digit_char(x),
        None => false,
    }
}

/// Whether a code point, or the end of the input, starts an ident.
fn ident_start_exec(c: Option<char>) -> (res: bool)
    ensures
        res == ident_start_at(c),
{
    match c {
        Some(x) => is_ident_start_code_point(x),
        None => false,
    }
}

/// Whether `s` is "url" in any ASCII case.
fn is_url_string(s: &String) -> (res: bool)
    ensures
        res == is_url(s@),
{
    let cs = chars_of(s.as_str());
    cs.len() == 3 && (cs[0] == 'u' || cs[0] == 'U') && (cs[1] == 'r' || cs[1] == 'R') && (cs[2]
        == 'l' || cs[2] == 'L')
}

/// A tokenizer over the characters of a CSS source.
#[derive(Debug, Clone, PartialEq, Eq)]
pub struct Tokenizer {
    input: Vec<char>,
    position: usize,
}

impl Tokenizer {
    /// The buffer of code points: a slot for the current input code point
    /// before any is consumed, then the input itself.
    pub closed spec fn input_spec(&self) -> Seq<char> {
        self.input@
    }

    /// The position of the current input code point in the buffer; the
    /// next input code point is the one after it.
    pub closed spec fn position_spec(&self) -> int {
        self.position as int
    }

    /// A tokenizer at the start of `input`: nothing is consumed yet, so the
    /// next input code point is the first code point of `input`.
    pub fn new(input: &str) -> (res: Self)
        ensures
            res.input_spec() == seq![' '] + input@,
            res.position_spec() == 0,
    {
        let chars = chars_of(input);
        let mut buffer: Vec<char> = Vec::new();
        buffer.push(' ');
        let mut i: usize = 0;
        while i < chars.len()
            invariant
                i <= chars@.len(),
                buffer@ == seq![' '] + chars@.subrange(0, i as int),
            decreases chars@.len() - i,
        {
            buffer.push(chars[i]);
            i += 1;
            assert(buffer@ =~= seq![' '] + chars@.subrange(0, i as int));
        }
        assert(chars@.subrange(0, chars@.len() as int) =~= chars@);
        Self { input: buffer, position: 0 }
    }

    /// Tokenizes the rest of the input: every token up to and including the
    /// end-of-file token, or the first error.
    pub fn tokenize(&mut self) -> (res: Result<Vec<Token>, CssParsingError>)
        requires
            !(tokenize_spec(old(self).input_spec(), old(self).position_spec()) is Unsupported),
        ensures
            final(self).input_spec() == old(self).input_spec(),
            match tokenize_spec(old(self).input_spec(), old(self).position_spec()) {
                Outcome::Done(ts, q) => res matches Ok(v) && models(v@) == ts
                    && final(self).position_spec() == q,
                Outcome::Failed(e, q) => res == Err::<Vec<Token>, CssParsingError>(e)
                    && final(self).position_spec() == q,
                Outcome::Unsupported => false,
            },
    {
        match self.try_tokenize() {
            Some(r) => r,
            None => Err(CssParsingError::InvalidEndOfFile),
        }
    }

    /// Tokenizes the rest of the input, as `tokenize` does, or gives `None`
    /// where the input holds a construct the tokenizer does not handle.
    pub fn try_tokenize(&mut self) -> (res: Option<Result<Vec<Token>, CssParsingError>>)
        ensures
            final(self).input_spec() == old(self).input_spec(),
            tokenize_from(
                old(self).input_spec(),
                old(self).position_spec(),
                (old(self).input_spec().len() + 2) as nat,
            ) is Some,
            match tokenize_spec(old(self).input_spec(), old(self).position_spec()) {
                Outcome::Done(ts, q) => res matches Some(Ok(v)) && models(v@)
                    == ts && final(self).position_spec() == q,
                Outcome::Failed(e, q) => res == Some(Err::<Vec<Token>, CssParsingError>(e))
                    && final(self).position_spec() == q,
                Outcome::Unsupported => res is None,
            },
    {
        let ghost s = self.input@;
        let ghost p0 = self.position as int;
        let ghost f0: nat = (s.len() + 2) as nat;
        proof {
            assert(s.len() == self.input.len());
        }
        let mut tokens: Vec<Token> = Vec::new();
        let ghost mut fuel: nat = f0;
        assert(models(tokens@) =~= Seq::<TokenModel>::empty());
        assert(prepend(Seq::empty(), tokenize_from(s, p0, f0)) == tokenize_from(s, p0, f0)) by {
            lemma_prepend_empty(tokenize_from(s, p0, f0));
        }
        loop
            invariant
                self.input@ == s,
                s == old(self).input@,
                p0 == old(self).position,
                f0 == (s.len() + 2) as nat,
                s.len() <= usize::MAX,
                fuel >= 1,
                self.position + fuel >= s.len() + 2,
                tokenize_from(s, p0, f0) == prepend(
                    models(tokens@),
                    tokenize_from(s, self.position as int, fuel),
                ),
            decreases fuel,
        {
            let ghost pos = self.position as int;
            let ghost prefix = models(tokens@);
            let token = self.consume_a_token();
            proof {
                lemma_tokenize_step(s, pos, fuel, prefix);
            }
            match token {
                Some(Ok(token)) => {
                    let is_eof = matches!(token, Token::EndOfFile);
                    let ghost tm = token@;
                    tokens.push(token);
                    proof {
                        assert(models(tokens@) =~= prefix.push(tm));
                    }
                    if is_eof {
                        assert(tm == TokenModel::EndOfFile);
                        return Some(Ok(tokens));
                    }
                    proof {
                        lemma_a_token_progress(s, pos);
                        fuel = (fuel - 1) as nat;
                    }
                },
                Some(Err(err)) => {
                    return Some(Err(err));
                },
                None => {
                    return None;
                },
            }
        }
    }

    /// A code point `offset` places after the position, if there is one.
    fn peek(&self, offset: usize) -> (res: Option<char>)
        ensures
            res == peek(self.input@, self.position as int, offset as int),
    {
        assert(self.input@.len() == self.input.len());
        match self.position.checked_add(offset) {
            Some(i) => if i < self.input.len() {
                Some(self.input[i])
            } else {
                None
            },
            None => None,
        }
    }

    fn next_input_code_point(&self) -> (res: Option<char>)
        ensures
            res == peek(self.input@, self.position as int, 1),
    {
        self.peek(1)
    }

    fn current_input_code_point(&self) -> (res: Option<char>)
        ensures
            res == peek(self.input@, self.position as int, 0),
    {
        self.peek(0)
    }

    fn consume_next_input_code_point(&mut self) -> (res: Option<char>)
        ensures
            final(self).input@ == old(self).input@,
            final(self).position as int == advance(old(self).position as int),
            res == peek(final(self).input@, final(self).position as int, 0),
            res is Some ==> final(self).position == old(self).position + 1,
            old(self).position + 1 < old(self).input@.len() ==> final(self).position
                == old(self).position + 1,
    {
        assert(self.input@.len() == self.input.len());
        self.position = self.position.saturating_add(1);
        self.current_input_code_point()
    }

    fn reconsume_current_input_code_point(&mut self)
        requires
            old(self).position > 0,
        ensures
            final(self).input@ == old(self).input@,
            final(self).position == old(self).position - 1,
    {
        self.position -= 1;
    }

    fn next_two_input_code_points(&self) -> (res: Result<(char, char), CssParsingError>)
        ensures
            has_next_two(self.input@, self.position as int) ==> res == Ok::<(char, char), CssParsingError>(
                (
                    peek(self.input@, self.position as int, 1).unwrap(),
                    peek(self.input@, self.position as int, 2).unwrap(),
                ),
            ),
            !has_next_two(self.input@, self.position as int) ==> res == Err::<(char, char), CssParsingError>(
                CssParsingError::InvalidEndOfFile,
            ),
    {
        match (self.peek(1), self.peek(2)) {
            (Some(first), Some(second)) => Ok((first, second)),
            _ => Err(CssParsingError::InvalidEndOfFile),
        }
    }

    fn next_three_input_code_points(&self) -> (res: Result<(char, char, char), CssParsingError>)
        ensures
            match (
                peek(self.input@, self.position as int, 1),
                peek(self.input@, self.position as int, 2),
                peek(self.input@, self.position as int, 3),
            ) {
                (Some(a), Some(b), Some(c)) => res == Ok::<(char, char, char), CssParsingError>((a, b, c)),
                _ => res == Err::<(char, char, char), CssParsingError>(CssParsingError::InvalidEndOfFile),
            },
    {
        match (self.peek(1), self.peek(2), self.peek(3)) {
            (Some(first), Some(second), Some(third)) => Ok((first, second, third)),
            _ => Err(CssParsingError::InvalidEndOfFile),
        }
    }

    /// Whether three code points (`None` for the end of the input) would
    /// start an ident sequence.
    fn check_if_three_code_points_would_start_an_ident_sequence(
        &self,
        first: Option<char>,
        second: Option<char>,
        third: Option<char>,
    ) -> (res: bool)
        ensures
            res == would_start_an_ident_sequence(first, second, third),
    {
        if first == Some('-') {
            ident_start_exec(second) || second == Some('-') || second == Some('\\')
        } else {
            ident_start_exec(first) || first == Some('\\')
        }
    }

    /// Whether three code points (`None` for the end of the input) would
    /// start a number.
    fn check_if_three_code_points_would_start_a_number(
        &self,
        first: Option<char>,
        second: Option<char>,
        third: Option<char>,
    ) -> (res: bool)
        ensures
            res == would_start_a_number(first, second, third),
    {
        if first == Some('+') || first == Some('-') {
            digit_exec(second) || (second == Some('.') && digit_exec(third))
        } else if first == Some('.') {
            digit_exec(second)
        } else {
            digit_exec(first)
        }
    }

    fn stream_starts_with_an_ident_sequence(&self) -> (res: bool)
        ensures
            res == starts_with_ident(self.input@, self.position as int),
    {
        self.check_if_three_code_points_would_start_an_ident_sequence(self.peek(0), self.peek(1), self.peek(2))
    }

    fn stream_starts_with_a_number(&self) -> (res: bool)
        ensures
            res == starts_with_number(self.input@, self.position as int),
    {
        self.check_if_three_code_points_would_start_a_number(self.peek(0), self.peek(1), self.peek(2))
    }

    fn consume_as_much_whitespace_as_possible(&mut self)
        ensures
            final(self).input@ == old(self).input@,
            final(self).position as int == whitespace_end(old(self).input@, old(self).position as int),
    {
        let ghost s = self.input@;
        let ghost p0 = self.position as int;
        loop
            invariant
                self.input@ == s,
                s == old(self).input@,
                p0 == old(self).position,
                whitespace_end(s, self.position as int) == whitespace_end(s, p0),
            ensures
                self.input@ == s,
                s == old(self).input@,
                p0 == old(self).position,
                whitespace_end(s, p0) == self.position as int,
            decreases s.len() - self.position,
        {
            match self.next_input_code_point() {
                Some(c) => {
                    if is_whitespace(c) {
                        self.consume_next_input_code_point();
                    } else {
                        break;
                    }
                },
                None => {
                    break;
                },
            }
        }
    }

    fn consume_comments(&mut self) -> (res: Result<(), CssParsingError>)
        ensures
            final(self).input@ == old(self).input@,
            match comments(old(self).input@, old(self).position as int, false) {
                Outcome::Done(_, q) => res is Ok && final(self).position == q,
                Outcome::Failed(e, q) => res == Err::<(), CssParsingError>(e)
                    && final(self).position == q,
                Outcome::Unsupported => false,
            },
    {
        let ghost s = self.input@;
        let ghost p0 = self.position as int;
        loop
            invariant
                self.input@ == s,
                s == old(self).input@,
                p0 == old(self).position,
                comments(s, self.position as int, false) == comments(s, p0, false),
            decreases s.len() - self.position,
        {
            let (first, second) = match self.next_two_input_code_points() {
                Ok(pair) => pair,
                Err(_) => return Ok(()),
            };
            if !(first == '/' && second == '*') {
                return Ok(());
            }
            let ghost start = self.position as int;
            self.consume_next_input_code_point();
            self.consume_next_input_code_point();
            loop
                invariant_except_break
                    comments(s, self.position as int, true) == comments(s, p0, false),
                invariant
                    self.input@ == s,
                    s == old(self).input@,
                    p0 == old(self).position,
                    start < self.position <= s.len(),
                ensures
                    comments(s, self.position as int, false) == comments(s, p0, false),
                decreases s.len() - self.position,
            {
                let (a, b) = match self.next_two_input_code_points() {
                    Ok(pair) => pair,
                    Err(e) => return Err(e),
                };
                if a == '*' && b == '/' {
                    self.consume_next_input_code_point();
                    self.consume_next_input_code_point();
                    break;
                }
                self.consume_next_input_code_point();
            }
        }
    }

    /// Consumes the code point after the position and appends it to `repr`.
    fn consume_and_append(&mut self, repr: &mut String)
        requires
            old(self).position + 1 < old(self).input@.len(),
        ensures
            final(self).input@ == old(self).input@,
            final(self).position == old(self).position + 1,
            final(repr)@ == old(repr)@.push(old(self).input@[old(self).position + 1]),
    {
        match self.consume_next_input_code_point() {
            Some(c) => push_char(repr, c),
            None => {},
        }
    }

    /// Consumes the digits after the position, appending them to `repr`.
    fn consume_digits(&mut self, repr: &mut String, Ghost(start): Ghost<int>)
        requires
            0 <= start <= old(self).position + 1 <= old(self).input@.len(),
            old(repr)@ == old(self).input@.subrange(start, old(self).position + 1),
        ensures
            final(self).input@ == old(self).input@,
            final(self).position as int == digits_end(old(self).input@, old(self).position as int),
            old(self).position <= final(self).position,
            final(self).position + 1 <= old(self).input@.len(),
            final(repr)@ == old(self).input@.subrange(start, final(self).position + 1),
    {
        let ghost s = self.input@;
        let ghost p0 = self.position as int;
        loop
            invariant
                self.input@ == s,
                s == old(self).input@,
                p0 == old(self).position,
                0 <= start <= self.position + 1 <= s.len(),
                p0 <= self.position,
                repr@ == s.subrange(start, self.position + 1),
                digits_end(s, self.position as int) == digits_end(s, p0),
            ensures
                self.input@ == s,
                s == old(self).input@,
                p0 == old(self).position,
                start <= self.position + 1 <= s.len(),
                p0 <= self.position,
                repr@ == s.subrange(start, self.position + 1),
                digits_end(s, p0) == self.position as int,
            decreases s.len() - self.position,
        {
            match self.next_input_code_point() {
                Some(c) => {
                    if is_digit_char(c) {
                        proof {
                            lemma_subrange_push(s, start, self.position + 1);
                        }
                        self.consume_and_append(repr);
                    } else {
                        break;
                    }
                },
                None => {
                    break;
                },
            }
        }
    }

    fn consume_a_number(&mut self) -> (res: Result<(String, NumberType), CssParsingError>)
        requires
            old(self).position < old(self).input@.len(),
        ensures
            final(self).input@ == old(self).input@,
            match number(old(self).input@, old(self).position as int) {
                Outcome::Done(t, q) => res matches Ok((r, t2)) && t2 == t && r@
                    == old(self).input@.subrange(old(self).position + 1, q + 1)
                    && final(self).position == q,
                Outcome::Failed(e, q) => res == Err::<(String, NumberType), CssParsingError>(e)
                    && final(self).position == q,
                Outcome::Unsupported => false,
            },
    {
        let ghost s = self.input@;
        let ghost p0 = self.position as int;
        let mut number_type = NumberType::Integer;
        let mut repr = String::new();
        assert(repr@ =~= s.subrange(p0 + 1, p0 + 1));
        match self.next_input_code_point() {
            Some(c) => {
                if c == '+' || c == '-' {
                    proof {
                        lemma_subrange_push(s, p0 + 1, p0 + 1);
                    }
                    self.consume_and_append(&mut repr);
                }
            },
            None => {},
        }
        self.consume_digits(&mut repr, Ghost(p0 + 1));
        let ghost p2 = self.position as int;
        if self.peek(1) == Some('.') && digit_exec(self.peek(2)) {
            proof {
                lemma_subrange_push(s, p0 + 1, p2 + 1);
                lemma_subrange_push(s, p0 + 1, p2 + 2);
            }
            self.consume_and_append(&mut repr);
            self.consume_and_append(&mut repr);
            number_type = NumberType::Number;
            self.consume_digits(&mut repr, Ghost(p0 + 1));
        }
        assert(number_fraction(s, p2) == Outcome::Done(number_type, self.position as int));
        let ghost p3 = self.position as int;
        let first = self.peek(1);
        let second = self.peek(2);
        if first == Some('E') || first == Some('e') {
            if second == Some('-') || second == Some('+') {
                if digit_exec(self.peek(3)) {
                    proof {
                        lemma_subrange_push(s, p0 + 1, p3 + 1);
                        lemma_subrange_push(s, p0 + 1, p3 + 2);
                        lemma_subrange_push(s, p0 + 1, p3 + 3);
                    }
                    self.consume_and_append(&mut repr);
                    self.consume_and_append(&mut repr);
                    self.consume_and_append(&mut repr);
                    number_type = NumberType::Number;
                    self.consume_digits(&mut repr, Ghost(p0 + 1));
                }
            } else if digit_exec(second) {
                proof {
                    lemma_subrange_push(s, p0 + 1, p3 + 1);
                    lemma_subrange_push(s, p0 + 1, p3 + 2);
                }
                self.consume_and_append(&mut repr);
                self.consume_and_append(&mut repr);
                number_type = NumberType::Number;
                self.consume_digits(&mut repr, Ghost(p0 + 1));
            }
        }
        Ok((repr, number_type))
    }

    fn consume_an_ident_sequence(&mut self) -> (res: Option<String>)
        ensures
            final(self).input@ == old(self).input@,
            match ident_sequence(old(self).input@, old(self).position as int, Seq::empty()) {
                Outcome::Done(v, q) => res matches Some(r) && r@ == v && final(self).position == q,
                Outcome::Failed(_, _) => false,
                Outcome::Unsupported => res is None,
            },
    {
        let ghost s = self.input@;
        let ghost p0 = self.position as int;
        let mut result = String::new();
        loop
            invariant
                self.input@ == s,
                s == old(self).input@,
                p0 == old(self).position,
                ident_sequence(s, self.position as int, result@) == ident_sequence(
                    s,
                    p0,
                    Seq::empty(),
                ),
            decreases s.len() - self.position,
        {
            match self.consume_next_input_code_point() {
                Some(input) => {
                    if is_ident_code_point(input) {
                        push_char(&mut result, input);
                    } else if input == '\\' {
                        return None;
                    } else {
                        self.reconsume_current_input_code_point();
                        return Some(result);
                    }
                },
                None => {
                    return Some(result);
                },
            }
        }
    }

    fn consume_an_ident_like_token(&mut self) -> (res: Option<Token>)
        ensures
            final(self).input@ == old(self).input@,
            match ident_like_token(old(self).input@, old(self).position as int) {
                Outcome::Done(t, q) => res matches Some(tok) && tok@ == t && final(self).position
                    == q,
                Outcome::Failed(_, _) => false,
                Outcome::Unsupported => res is None,
            },
    {
        let string = match self.consume_an_ident_sequence() {
            Some(string) => string,
            None => return None,
        };
        if is_url_string(&string) {
            return None;
        }
        match self.next_input_code_point() {
            Some(c) => {
                if c == '(' {
                    self.consume_next_input_code_point();
                    return Some(Token::Function { value: string });
                }
            },
            None => {},
        }
        Some(Token::Ident { value: string })
    }

    fn consume_a_numeric_token(&mut self) -> (res: Option<Result<Token, CssParsingError>>)
        requires
            old(self).position < old(self).input@.len(),
        ensures
            final(self).input@ == old(self).input@,
            match numeric_token(old(self).input@, old(self).position as int) {
                Outcome::Done(t, q) => res matches Some(Ok(tok)) && tok@ == t
                    && final(self).position == q,
                Outcome::Failed(e, q) => res == Some(Err::<Token, CssParsingError>(e))
                    && final(self).position == q,
                Outcome::Unsupported => res is None,
            },
    {
        let (repr, number_type) = match self.consume_a_number() {
            Ok(number) => number,
            Err(e) => return Some(Err(e)),
        };
        if self.check_if_three_code_points_would_start_an_ident_sequence(self.peek(1), self.peek(2), self.peek(3)) {
            let unit = match self.consume_an_ident_sequence() {
                Some(unit) => unit,
                None => return None,
            };
            return Some(Ok(Token::Dimension { repr, number_type, unit }));
        }
        match self.next_input_code_point() {
            Some(c) => {
                if c == '%' {
                    self.consume_next_input_code_point();
                    return Some(Ok(Token::Percentage { repr }));
                }
            },
            None => {},
        }
        Some(Ok(Token::Number { repr, number_type }))
    }

    /// The part of consuming a token after a U+002D HYPHEN-MINUS was consumed.
    fn consume_after_hyphen(&mut self) -> (res: Option<Result<Token, CssParsingError>>)
        requires
            old(self).position > 0,
            peek(old(self).input@, old(self).position as int, 0) == Some('-'),
        ensures
            final(self).input@ == old(self).input@,
            match token_at(old(self).input@, old(self).position as int, '-') {
                Outcome::Done(t, q) => res matches Some(Ok(tok)) && tok@ == t
                    && final(self).position == q,
                Outcome::Failed(e, q) => res == Some(Err::<Token, CssParsingError>(e))
                    && final(self).position == q,
                Outcome::Unsupported => res is None,
            },
    {
        if self.stream_starts_with_a_number() {
            self.reconsume_current_input_code_point();
            return self.consume_a_numeric_token();
        }
        if self.peek(1) == Some('-') && self.peek(2) == Some('>') {
            self.consume_next_input_code_point();
            self.consume_next_input_code_point();
            return Some(Ok(Token::Cdc));
        }
        if self.stream_starts_with_an_ident_sequence() {
            self.reconsume_current_input_code_point();
            return match self.consume_an_ident_like_token() {
                Some(token) => Some(Ok(token)),
                None => None,
            };
        }
        Some(Ok(Token::Delim { value: '-' }))
    }

    /// The token that starts with code point `c`, just consumed.
    fn consume_token_starting_with(&mut self, c: char) -> (res: Option<Result<Token, CssParsingError>>)
        requires
            old(self).position > 0,
            peek(old(self).input@, old(self).position as int, 0) == Some(c),
        ensures
            final(self).input@ == old(self).input@,
            match token_at(old(self).input@, old(self).position as int, c) {
                Outcome::Done(t, q) => res matches Some(Ok(tok)) && tok@ == t
                    && final(self).position == q,
                Outcome::Failed(e, q) => res == Some(Err::<Token, CssParsingError>(e))
                    && final(self).position == q,
                Outcome::Unsupported => res is None,
            },
    {
        if c == '\n' || c == '\t' || c == ' ' {
            self.consume_as_much_whitespace_as_possible();
            Some(Ok(Token::Whitespace))
        } else if c == '"' || c == '#' || c == '\'' || c == '.' || c == '<' || c == '@' || c
            == '\\' {
            None
        } else if c == '(' {
            Some(Ok(Token::LeftParenthesis))
        } else if c == ')' {
            Some(Ok(Token::RightParenthesis))
        } else if c == '+' {
            if self.stream_starts_with_a_number() {
                self.reconsume_current_input_code_point();
                return self.consume_a_numeric_token();
            }
            Some(Ok(Token::Delim { value: c }))
        } else if c == ',' {
            Some(Ok(Token::Comma))
        } else if c == '-' {
            self.consume_after_hyphen()
        } else if c == ':' {
            Some(Ok(Token::Colon))
        } else if c == ';' {
            Some(Ok(Token::Semicolon))
        } else if c == '[' {
            Some(Ok(Token::LeftSquareBracket))
        } else if c == ']' {
            Some(Ok(Token::RightSquareBracket))
        } else if c == '{' {
            Some(Ok(Token::LeftCurlyBracket))
        } else if c == '}' {
            Some(Ok(Token::RightCurlyBracket))
        } else if is_digit_char(c) {
            self.reconsume_current_input_code_point();
            self.consume_a_numeric_token()
        } else if is_ident_start_code_point(c) {
            self.reconsume_current_input_code_point();
            match self.consume_an_ident_like_token() {
                Some(token) => Some(Ok(token)),
                None => None,
            }
        } else {
            Some(Ok(Token::Delim { value: c }))
        }
    }

    fn consume_a_token(&mut self) -> (res: Option<Result<Token, CssParsingError>>)
        ensures
            final(self).input@ == old(self).input@,
            match a_token(old(self).input@, old(self).position as int) {
                Outcome::Done(t, q) => res matches Some(Ok(tok)) && tok@ == t
                    && final(self).position == q,
                Outcome::Failed(e, q) => res == Some(Err::<Token, CssParsingError>(e))
                    && final(self).position == q,
                Outcome::Unsupported => res is None,
            },
    {
        match self.consume_comments() {
            Ok(()) => {},
            Err(e) => return Some(Err(e)),
        }
        match self.consume_next_input_code_point() {
            None => Some(Ok(Token::EndOfFile)),
            Some(c) => self.consume_token_starting_with(c),
        }
    }
}

/// The models of a sequence of tokens.
pub open spec fn models(ts: Seq<Token>) -> Seq<TokenModel> {
    ts.map_values(|t: Token| t@)
}

proof fn lemma_prepend_empty(o: Option<Outcome<Seq<TokenModel>>>)
    ensures
        prepend(Seq::empty(), o) == o,
{
    match o {
        Some(Outcome::Done(ts, q)) => {
            assert(Seq::<TokenModel>::empty() + ts =~= ts);
        },
        _ => {},
    }
}

/// One step of tokenizing, seen from the outcome of the whole.
proof fn lemma_tokenize_step(s: Seq<char>, p: int, fuel: nat, prefix: Seq<TokenModel>)
    requires
        fuel >= 1,
    ensures
        match a_token(s, p) {
            Outcome::Done(TokenModel::EndOfFile, q) => prepend(prefix, tokenize_from(s, p, fuel))
                == Some(Outcome::Done(prefix.push(TokenModel::EndOfFile), q)),
            Outcome::Done(t, q) => prepend(prefix, tokenize_from(s, p, fuel)) == prepend(
                prefix.push(t),
                tokenize_from(s, q, (fuel - 1) as nat),
            ),
            Outcome::Failed(e, q) => prepend(prefix, tokenize_from(s, p, fuel)) == Some(
                Outcome::<Seq<TokenModel>>::Failed(e, q),
            ),
            Outcome::Unsupported => prepend(prefix, tokenize_from(s, p, fuel)) == Some(
                Outcome::<Seq<TokenModel>>::Unsupported,
            ),
        },
{
    match a_token(s, p) {
        Outcome::Done(TokenModel::EndOfFile, q) => {
            assert(prefix + seq![TokenModel::EndOfFile] =~= prefix.push(TokenModel::EndOfFile));
        },
        Outcome::Done(t, q) => {
            match tokenize_from(s, q, (fuel - 1) as nat) {
                Some(Outcome::Done(ts, r)) => {
                    assert(prefix + (seq![t] + ts) =~= prefix.push(t) + ts);
                },
                _ => {},
            }
        },
        _ => {},
    }
}

proof fn lemma_subrange_push(s: Seq<char>, a: int, b: int)
    requires
        0 <= a <= b < s.len(),
    ensures
        s.subrange(a, b + 1) == s.subrange(a, b).push(s[b]),
{
    assert(s.subrange(a, b + 1) =~= s.subrange(a, b).push(s[b]));
}

/// What tokenizing gives once `prefix` has been tokenized and `rest` is the
/// outcome from there on.
pub open spec fn prepend(prefix: Seq<TokenModel>, rest: Option<Outcome<Seq<TokenModel>>>) -> Option<
    Outcome<Seq<TokenModel>>,
> {
    match rest {
        Some(Outcome::Done(ts, q)) => Some(Outcome::Done(prefix + ts, q)),
        other => other,
    }
}

proof fn lemma_comments_ge(s: Seq<char>, p: int, inside: bool)
    ensures
        comments(s, p, inside) matches Outcome::Done(_, q) ==> q >= p,
    decreases s.len() - p, if inside { 1int } else { 0int },
{
    if p < 0 || p >= s.len() {
    } else if !inside {
        if has_next_two(s, p) && s[p + 1] == '/' && s[p + 2] == '*' {
            lemma_comments_ge(s, p + 2, true);
        }
    } else if has_next_two(s, p) {
        if s[p + 1] == '*' && s[p + 2] == '/' {
            lemma_comments_ge(s, p + 2, false);
        } else {
            lemma_comments_ge(s, p + 1, true);
        }
    }
}

proof fn lemma_whitespace_end_ge(s: Seq<char>, p: int)
    ensures
        whitespace_end(s, p) >= p,
    decreases s.len() - p,
{
    if 0 <= p && p + 1 < s.len() && is_whitespace_spec(s[p + 1]) {
        lemma_whitespace_end_ge(s, p + 1);
    }
}

proof fn lemma_digits_end_ge(s: Seq<char>, p: int)
    ensures
        digits_end(s, p) >= p,
        0 <= p && p + 1 < s.len() && is_digit(s[p + 1]) ==> digits_end(s, p) >= p + 1,
    decreases s.len() - p,
{
    if 0 <= p && p + 1 < s.len() && is_digit(s[p + 1]) {
        lemma_digits_end_ge(s, p + 1);
    }
}

proof fn lemma_ident_sequence_ge(s: Seq<char>, p: int, acc: Seq<char>)
    requires
        0 <= p,
    ensures
        ident_sequence(s, p, acc) matches Outcome::Done(_, q) ==> q >= p,
        p + 1 < s.len() && is_ident_char(s[p + 1]) ==> (ident_sequence(s, p, acc) matches Outcome::Done(
            _,
            q,
        ) ==> q >= p + 1),
    decreases s.len() - p,
{
    if p + 1 < s.len() && is_ident_char(s[p + 1]) {
        lemma_ident_sequence_ge(s, p + 1, acc.push(s[p + 1]));
    }
}

proof fn lemma_numeric_token_ge(s: Seq<char>, p: int)
    requires
        0 <= p,
        p + 1 < s.len(),
        is_digit(s[p + 1]) || s[p + 1] == '+' || s[p + 1] == '-',
    ensures
        numeric_token(s, p) matches Outcome::Done(_, q) ==> q >= p + 1,
{
    let p1 = if s[p + 1] == '+' || s[p + 1] == '-' {
        p + 1
    } else {
        p
    };
    lemma_digits_end_ge(s, p1);
    let p2 = digits_end(s, p1);
    if peek(s, p2, 1) == Some('.') && digit_at(peek(s, p2, 2)) {
        lemma_digits_end_ge(s, p2 + 2);
    }
    if let Outcome::Done(t, p3) = number_fraction(s, p2) {
        lemma_digits_end_ge(s, p3 + 2);
        lemma_digits_end_ge(s, p3 + 3);
        if let Outcome::Done(t2, q) = number(s, p) {
            lemma_ident_sequence_ge(s, q, Seq::empty());
        }
    }
}

/// A token other than the end-of-file token moves the position forward,
/// from a position inside the input.
pub proof fn lemma_a_token_progress(s: Seq<char>, p: int)
    requires
        0 <= p,
        s.len() <= usize::MAX,
        a_token(s, p) matches Outcome::Done(t, q) && !(t is EndOfFile),
    ensures
        a_token(s, p) matches Outcome::Done(_, q) && q > p,
        p < s.len(),
{
    lemma_comments_ge(s, p, false);
    let p1 = comments(s, p, false)->Done_1;
    let q0 = advance(p1);
    let c = s[q0];
    if is_css_whitespace(c) {
        lemma_whitespace_end_ge(s, q0);
    } else if c == '+' || c == '-' || is_digit(c) {
        if starts_with_number(s, q0) || is_digit(c) {
            lemma_numeric_token_ge(s, q0 - 1);
        }
        if c == '-' && starts_with_ident(s, q0) {
            lemma_ident_sequence_ge(s, q0 - 1, Seq::empty());
        }
    } else if is_ident_start(c) {
        lemma_ident_sequence_ge(s, q0 - 1, Seq::empty());
    }
}

/// Every tokenization that stops without error ends with the end-of-file
/// token, and has it nowhere before.
pub proof fn lemma_tokens_end_with_eof(s: Seq<char>, p: int)
    ensures
        tokenize_spec(s, p) matches Outcome::Done(ts, _) ==> {
            &&& ts.len() > 0
            &&& ts.last() is EndOfFile
            &&& forall|i: int| 0 <= i < ts.len() - 1 ==> !(#[trigger] ts[i] is EndOfFile)
        },
{
    lemma_tokenize_from_ends_with_eof(s, p, (s.len() + 2) as nat);
}

proof fn lemma_tokenize_from_ends_with_eof(s: Seq<char>, p: int, fuel: nat)
    ensures
        tokenize_from(s, p, fuel) matches Some(Outcome::Done(ts, _)) ==> {
            &&& ts.len() > 0
            &&& ts.last() is EndOfFile
            &&& forall|i: int| 0 <= i < ts.len() - 1 ==> !(#[trigger] ts[i] is EndOfFile)
        },
    decreases fuel,
{
    if fuel > 0 {
        match a_token(s, p) {
            Outcome::Done(TokenModel::EndOfFile, q) => {},
            Outcome::Done(t, q) => {
                lemma_tokenize_from_ends_with_eof(s, q, (fuel - 1) as nat);
                match tokenize_from(s, q, (fuel - 1) as nat) {
                    Some(Outcome::Done(rest, r)) => {
                        let ts = seq![t] + rest;
                        assert forall|i: int| 0 <= i < ts.len() - 1 implies !(#[trigger] ts[i] is EndOfFile) by {
                            if i > 0 {
                                assert(ts[i] == rest[i - 1]);
                            }
                        }
                    },
                    _ => {},
                }
            },
            _ => {},
        }
    }
}

} // verus!

verus! {

/// Each punctuation code point that starts a token is a token of its own
/// kind: whatever follows it, consuming a token where the next code point
/// is `(`, `)`, `,`, `:`, `;`, `[`, `]`, `{` or `}` gives the token for
/// that code point and consumes that one code point only.
pub proof fn lemma_punctuation_tokens(s: Seq<char>, p: int)
    requires
        0 <= p,
        p + 1 < s.len(),
        s.len() <= usize::MAX,
    ensures
        s[p + 1] == '(' ==> a_token(s, p) == Outcome::Done(TokenModel::LeftParenthesis, p + 1),
        s[p + 1] == ')' ==> a_token(s, p) == Outcome::Done(TokenModel::RightParenthesis, p + 1),
        s[p + 1] == ',' ==> a_token(s, p) == Outcome::Done(TokenModel::Comma, p + 1),
        s[p + 1] == ':' ==> a_token(s, p) == Outcome::Done(TokenModel::Colon, p + 1),
        s[p + 1] == ';' ==> a_token(s, p) == Outcome::Done(TokenModel::Semicolon, p + 1),
        s[p + 1] == '[' ==> a_token(s, p) == Outcome::Done(TokenModel::LeftSquareBracket, p + 1),
        s[p + 1] == ']' ==> a_token(s, p) == Outcome::Done(TokenModel::RightSquareBracket, p + 1),
        s[p + 1] == '{' ==> a_token(s, p) == Outcome::Done(TokenModel::LeftCurlyBracket, p + 1),
        s[p + 1] == '}' ==> a_token(s, p) == Outcome::Done(TokenModel::RightCurlyBracket, p + 1),
{
    if s[p + 1] != '/' {
        assert(comments(s, p, false) == Outcome::<()>::Done((), p));
    }
}

/// Tokenizing from a punctuation code point gives its token, then the
/// tokens of the rest: `{` is never tokenized as anything but a left curly
/// bracket, and so on for each punctuation code point.
pub proof fn lemma_punctuation_starts_the_tokens(s: Seq<char>, p: int, fuel: nat)
    requires
        0 <= p,
        p + 1 < s.len(),
        s.len() <= usize::MAX,
        s[p + 1] == '{' || s[p + 1] == '}' || s[p + 1] == '[' || s[p + 1] == ']' || s[p + 1] == '('
            || s[p + 1] == ')' || s[p + 1] == ',' || s[p + 1] == ':' || s[p + 1] == ';',
    ensures
        tokenize_from(s, p, fuel + 1) == prepend(
            seq![
                if s[p + 1] == '{' {
                    TokenModel::LeftCurlyBracket
                } else if s[p + 1] == '}' {
                    TokenModel::RightCurlyBracket
                } else if s[p + 1] == '[' {
                    TokenModel::LeftSquareBracket
                } else if s[p + 1] == ']' {
                    TokenModel::RightSquareBracket
                } else if s[p + 1] == '(' {
                    TokenModel::LeftParenthesis
                } else if s[p + 1] == ')' {
                    TokenModel::RightParenthesis
                } else if s[p + 1] == ',' {
                    TokenModel::Comma
                } else if s[p + 1] == ':' {
                    TokenModel::Colon
                } else {
                    TokenModel::Semicolon
                },
            ],
            tokenize_from(s, p + 1, fuel),
        ),
{
    lemma_punctuation_tokens(s, p);
    assert(tokenize_from(s, p, fuel + 1) == match tokenize_from(s, p + 1, fuel) {
        Some(Outcome::Done(ts, r)) => Some(Outcome::Done(seq![a_token(s, p)->Done_0] + ts, r)),
        other => other,
    });
}

/// What the whitespace that follows `p` spans: every code point up to the
/// end position is whitespace, and the one after it is not.
proof fn lemma_whitespace_end_span(s: Seq<char>, p: int)
    requires
        0 <= p < s.len(),
    ensures
        p <= whitespace_end(s, p) < s.len(),
        forall|k: int| p < k <= whitespace_end(s, p) ==> is_whitespace_spec(#[trigger] s[k]),
        whitespace_end(s, p) + 1 == s.len() || !is_whitespace_spec(s[whitespace_end(s, p) + 1]),
    decreases s.len() - p,
{
    if p + 1 < s.len() && is_whitespace_spec(s[p + 1]) {
        lemma_whitespace_end_span(s, p + 1);
    }
}

/// A space, tab or line feed starts a whitespace token that takes in all
/// the whitespace that follows and stops before the first code point that
/// is not whitespace.
pub proof fn lemma_whitespace_tokens(s: Seq<char>, p: int)
    requires
        0 <= p,
        p + 1 < s.len(),
        s.len() <= usize::MAX,
        s[p + 1] == ' ' || s[p + 1] == '\t' || s[p + 1] == '\n',
    ensures
        a_token(s, p) matches Outcome::Done(t, q) && t is Whitespace && p + 1 <= q < s.len() && (forall|k: int|
            p < k <= q ==> is_whitespace_spec(#[trigger] s[k])) && (q + 1 == s.len() || !is_whitespace_spec(
            s[q + 1],
        )),
{
    assert(comments(s, p, false) == Outcome::<()>::Done((), p));
    lemma_whitespace_end_span(s, p + 1);
}

} // verus!
