use lib::css_tokenizer::{CssParsingError, NumberType, Token, Tokenizer};

fn ident(s: &str) -> Token {
    Token::Ident { value: String::from(s) }
}

#[test]
fn tokenizes_a_declaration() {
    let mut tokenizer = Tokenizer::new("color: red;  ");
    let tokens = tokenizer.tokenize().unwrap();
    assert_eq!(
        tokens,
        vec![
            ident("color"),
            Token::Colon,
            Token::Whitespace,
            ident("red"),
            Token::Semicolon,
            Token::Whitespace,
            Token::EndOfFile,
        ]
    );
}

#[test]
fn tokenizes_numbers_dimensions_and_percentages() {
    let mut tokenizer = Tokenizer::new("12px 50% 3.5 ;   ");
    let tokens = tokenizer.tokenize().unwrap();
    assert_eq!(
        tokens,
        vec![
            Token::Dimension {
                repr: String::from("12"),
                number_type: NumberType::Integer,
                unit: String::from("px"),
            },
            Token::Whitespace,
            Token::Percentage { repr: String::from("50") },
            Token::Whitespace,
            Token::Number { repr: String::from("3.5"), number_type: NumberType::Number },
            Token::Whitespace,
            Token::Semicolon,
            Token::Whitespace,
            Token::EndOfFile,
        ]
    );
}

#[test]
fn tokenizes_a_function_with_arguments() {
    let mut tokenizer = Tokenizer::new("rgb(1, 2, 3)    ");
    let tokens = tokenizer.tokenize().unwrap();
    let number = |s: &str| Token::Number { repr: String::from(s), number_type: NumberType::Integer };
    assert_eq!(
        tokens,
        vec![
            Token::Function { value: String::from("rgb") },
            number("1"),
            Token::Comma,
            Token::Whitespace,
            number("2"),
            Token::Comma,
            Token::Whitespace,
            number("3"),
            Token::RightParenthesis,
            Token::Whitespace,
            Token::EndOfFile,
        ]
    );
}

#[test]
fn skips_comments() {
    let mut tokenizer = Tokenizer::new("/* x */a   ");
    let tokens = tokenizer.tokenize().unwrap();
    assert_eq!(tokens, vec![ident("a"), Token::Whitespace, Token::EndOfFile]);
}

#[test]
fn a_number_at_the_end_of_the_input() {
    let mut tokenizer = Tokenizer::new("12");
    assert_eq!(
        tokenizer.tokenize(),
        Ok(vec![
            Token::Number { repr: String::from("12"), number_type: NumberType::Integer },
            Token::EndOfFile,
        ])
    );
    let mut tokenizer = Tokenizer::new("3.5e");
    assert_eq!(
        tokenizer.tokenize(),
        Ok(vec![
            Token::Dimension {
                repr: String::from("3.5"),
                number_type: NumberType::Number,
                unit: String::from("e"),
            },
            Token::EndOfFile,
        ])
    );
}

#[test]
fn the_first_code_point_is_read_first() {
    let mut tokenizer = Tokenizer::new("(),");
    assert_eq!(
        tokenizer.tokenize(),
        Ok(vec![Token::LeftParenthesis, Token::RightParenthesis, Token::Comma, Token::EndOfFile])
    );
    let mut tokenizer = Tokenizer::new(" a");
    assert_eq!(tokenizer.tokenize(), Ok(vec![Token::Whitespace, ident("a"), Token::EndOfFile]));
}

#[test]
fn a_sign_before_a_final_digit_starts_a_number() {
    let mut tokenizer = Tokenizer::new("+2");
    assert_eq!(
        tokenizer.tokenize(),
        Ok(vec![Token::Number { repr: String::from("+2"), number_type: NumberType::Integer }, Token::EndOfFile])
    );
    let mut tokenizer = Tokenizer::new("-");
    assert_eq!(tokenizer.tokenize(), Ok(vec![Token::Delim { value: '-' }, Token::EndOfFile]));
}

#[test]
fn an_unterminated_comment_is_an_early_end_of_file() {
    let mut tokenizer = Tokenizer::new("/* never closed");
    assert_eq!(tokenizer.tokenize(), Err(CssParsingError::InvalidEndOfFile));
}

#[test]
fn a_string_is_not_handled() {
    let mut tokenizer = Tokenizer::new("\"x\"  ");
    assert_eq!(tokenizer.try_tokenize(), None);
}

#[test]
fn an_empty_input_gives_only_end_of_file() {
    let mut tokenizer = Tokenizer::new("");
    assert_eq!(tokenizer.tokenize(), Ok(vec![Token::EndOfFile]));
}

#[test]
fn cdc_and_delimiters() {
    let mut tokenizer = Tokenizer::new("--> + !  ");
    let tokens = tokenizer.tokenize().unwrap();
    assert_eq!(
        tokens,
        vec![
            Token::Cdc,
            Token::Whitespace,
            Token::Delim { value: '+' },
            Token::Whitespace,
            Token::Delim { value: '!' },
            Token::Whitespace,
            Token::EndOfFile,
        ]
    );
}

#[test]
fn exponents_and_signs() {
    let mut tokenizer = Tokenizer::new("-1e3 +2 ;   ");
    let tokens = tokenizer.tokenize().unwrap();
    assert_eq!(
        tokens,
        vec![
            Token::Number { repr: String::from("-1e3"), number_type: NumberType::Number },
            Token::Whitespace,
            Token::Number { repr: String::from("+2"), number_type: NumberType::Integer },
            Token::Whitespace,
            Token::Semicolon,
            Token::Whitespace,
            Token::EndOfFile,
        ]
    );
}
