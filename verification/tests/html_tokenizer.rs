use lib::html_tokenizer::{Attribute, State, Token, Tokenizer};

fn start_tag(name: &str, attributes: Vec<Attribute>) -> Token {
    Token::StartTag {
        name: String::from(name),
        self_closing: false,
        self_closing_acknowledged: false,
        attributes,
    }
}

fn end_tag(name: &str) -> Token {
    Token::EndTag { name: String::from(name), self_closing: false, attributes: vec![] }
}

fn character(c: char) -> Token {
    Token::Character { data: c }
}

fn all_tokens(input: &str) -> Vec<Token> {
    let mut tokenizer = Tokenizer::new(input);
    let mut tokens = vec![];
    while let Some(token) = tokenizer.next_token() {
        tokens.push(token.clone());
    }
    tokens
}

#[test]
fn tokenizes_tags_and_text() {
    assert_eq!(
        all_tokens("<p>Hi</p>"),
        vec![start_tag("p", vec![]), character('H'), character('i'), end_tag("p"), Token::EndOfFile]
    );
}

#[test]
fn lowercases_tag_and_attribute_names() {
    assert_eq!(
        all_tokens("<DIV CLASS='x'>"),
        vec![
            start_tag(
                "div",
                vec![Attribute { name: String::from("class"), value: String::from("x") }]
            ),
            Token::EndOfFile,
        ]
    );
}

#[test]
fn collects_attributes() {
    assert_eq!(
        all_tokens("<a href=\"x\" id=y>"),
        vec![
            start_tag(
                "a",
                vec![
                    Attribute { name: String::from("href"), value: String::from("x") },
                    Attribute { name: String::from("id"), value: String::from("y") },
                ]
            ),
            Token::EndOfFile,
        ]
    );
}

#[test]
fn self_closing_start_tag() {
    assert_eq!(
        all_tokens("<br/>"),
        vec![
            Token::StartTag {
                name: String::from("br"),
                self_closing: true,
                self_closing_acknowledged: false,
                attributes: vec![],
            },
            Token::EndOfFile,
        ]
    );
}

#[test]
fn doctype() {
    assert_eq!(
        all_tokens("<!DOCTYPE hTML>"),
        vec![
            Token::Doctype {
                name: Some(String::from("html")),
                public_identifier: None,
                system_identifier: None,
                force_quirks: false,
            },
            Token::EndOfFile,
        ]
    );
}

#[test]
fn doctype_cut_short_forces_quirks() {
    let mut tokenizer = Tokenizer::new("<!doctype ");
    let token = tokenizer.next_token().cloned();
    assert_eq!(token, Some(Token::EndOfFile));
    assert_eq!(tokenizer.current_token(), Some(&Token::EndOfFile));
}

#[test]
fn hexadecimal_character_reference() {
    assert_eq!(all_tokens("&#x41;"), vec![character('A'), Token::EndOfFile]);
}

#[test]
fn unknown_named_character_reference_is_text() {
    assert_eq!(
        all_tokens("a&amp;b"),
        vec![
            character('a'),
            character('&'),
            character('a'),
            character('m'),
            character('p'),
            character(';'),
            character('b'),
            Token::EndOfFile,
        ]
    );
}

#[test]
fn nothing_after_end_of_file() {
    let mut tokenizer = Tokenizer::new("");
    assert_eq!(tokenizer.next_token().cloned(), Some(Token::EndOfFile));
    assert_eq!(tokenizer.next_token(), None);
    assert_eq!(tokenizer.next_token(), None);
}

#[test]
fn rcdata_keeps_markup_as_text_until_the_end_tag() {
    let mut tokenizer = Tokenizer::new("<title>a<b></title>");
    assert_eq!(tokenizer.next_token().cloned(), Some(start_tag("title", vec![])));
    tokenizer.switch_to(State::RcData);
    assert_eq!(tokenizer.state(), State::RcData);
    let mut rest = vec![];
    while let Some(token) = tokenizer.next_token() {
        rest.push(token.clone());
    }
    assert_eq!(
        rest,
        vec![
            character('a'),
            character('<'),
            character('b'),
            character('>'),
            end_tag("title"),
            Token::EndOfFile,
        ]
    );
}

#[test]
fn acknowledges_a_set_self_closing_flag() {
    let mut token = Token::StartTag {
        name: String::from("br"),
        self_closing: true,
        self_closing_acknowledged: false,
        attributes: vec![],
    };
    token.acknowledge_self_closing_flag_if_set();
    assert_eq!(
        token,
        Token::StartTag {
            name: String::from("br"),
            self_closing: true,
            self_closing_acknowledged: true,
            attributes: vec![],
        }
    );
    let mut plain = start_tag("p", vec![]);
    plain.acknowledge_self_closing_flag_if_set();
    assert_eq!(plain, start_tag("p", vec![]));
}

#[test]
fn tag_name_of_tokens() {
    assert_eq!(start_tag("p", vec![]).tag_name(), Some(String::from("p")));
    assert_eq!(end_tag("div").tag_name(), Some(String::from("div")));
    assert_eq!(character('x').tag_name(), None);
}

#[test]
fn try_next_token_gives_the_same_tokens() {
    let mut tokenizer = Tokenizer::new("<b>x</b>");
    let mut tokens = vec![];
    while let Some(Some(token)) = tokenizer.try_next_token(1000) {
        tokens.push(token.clone());
    }
    assert_eq!(tokens, all_tokens("<b>x</b>"));
    // After the end-of-file token there is nothing more.
    assert!(matches!(tokenizer.try_next_token(1000), Some(None)));
}

#[test]
fn try_next_token_stops_without_steps() {
    let mut tokenizer = Tokenizer::new("<b>");
    assert!(tokenizer.try_next_token(0).is_none());
}

#[test]
fn try_next_token_stops_on_unhandled_input() {
    // A doctype without a name is not handled.
    let mut tokenizer = Tokenizer::new("<!DOCTYPE>");
    assert!(tokenizer.try_next_token(1000).is_none());
}

#[test]
fn a_copied_token_equals_its_source() {
    let token = Token::StartTag {
        name: String::from("a"),
        self_closing: true,
        self_closing_acknowledged: false,
        attributes: vec![Attribute { name: String::from("href"), value: String::from("x") }],
    };
    assert_eq!(token.copy(), token);
    assert_eq!(character('y').copy(), character('y'));
}

#[test]
fn the_token_count_grows_with_each_token() {
    let mut tokenizer = Tokenizer::new("<b>x");
    assert_eq!(tokenizer.token_count(), 0);
    assert!(tokenizer.try_next_token(1000).is_some());
    assert_eq!(tokenizer.token_count(), 1);
    assert!(tokenizer.try_next_token(1000).is_some());
    assert_eq!(tokenizer.token_count(), 2);
}

#[test]
fn plain_text_gives_one_character_token_per_character() {
    assert_eq!(all_tokens("ab"), vec![character('a'), character('b'), Token::EndOfFile]);
}
