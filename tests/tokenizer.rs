use tinyscript::tokenizer::{Token, Tokenizer, tokenize};

/// Compares token by token; a number token matches the value its text reads as.
fn compare_tokens(vec1: Vec<Token>, vec2: Vec<Expected>) -> bool {
    vec1.len() == vec2.len()
        && vec1.iter().zip(vec2.iter()).all(|(a, b)| match (a, b) {
            (Token::Number(text), Expected::Number(x)) => text.parse::<f64>().unwrap() == *x,
            (t, Expected::Token(u)) => t == u,
            _ => false,
        })
}

enum Expected {
    Token(Token),
    Number(f64),
}

fn toks(ts: Vec<Token>) -> Vec<Expected> {
    ts.into_iter().map(Expected::Token).collect()
}

#[test]
fn test_single_operators() {
    let mut tokenizer = Tokenizer::new("+ - * / %");
    let tokens = tokenizer.tokenize().unwrap();
    let expected_tokens = toks(vec![Token::Plus, Token::Minus, Token::Mul, Token::Div, Token::Mod]);
    assert!(compare_tokens(tokens, expected_tokens));
}

#[test]
fn test_numbers() {
    let mut tokenizer = Tokenizer::new("123 456.789");
    let tokens = tokenizer.tokenize().unwrap();
    let expected_tokens = vec![Expected::Number(123.0), Expected::Number(456.789)];
    assert!(compare_tokens(tokens, expected_tokens));
}

#[test]
fn test_identifiers() {
    let mut tokenizer = Tokenizer::new("abc xyz123 a1b2c3");
    let tokens = tokenizer.tokenize().unwrap();
    let expected_tokens = toks(vec![
        Token::Identifier("abc".to_string()),
        Token::Identifier("xyz123".to_string()),
        Token::Identifier("a1b2c3".to_string()),
    ]);
    assert!(compare_tokens(tokens, expected_tokens));
}

#[test]
fn test_mixed_input() {
    let mut tokenizer = Tokenizer::new("123 + abc - 45.67 * xyz / %");
    let tokens = tokenizer.tokenize().unwrap();
    let expected_tokens = vec![
        Expected::Number(123.0),
        Expected::Token(Token::Plus),
        Expected::Token(Token::Identifier("abc".to_string())),
        Expected::Token(Token::Minus),
        Expected::Number(45.67),
        Expected::Token(Token::Mul),
        Expected::Token(Token::Identifier("xyz".to_string())),
        Expected::Token(Token::Div),
        Expected::Token(Token::Mod),
    ];
    assert!(compare_tokens(tokens, expected_tokens));
}

#[test]
fn test_number_with_two_dots() {
    let mut tokenizer = Tokenizer::new("12.34.56");
    let result = tokenizer.tokenize();
    assert!(result.is_err());
}

#[test]
fn second_dot_message() {
    assert_eq!(tokenize("12.34.56"), Err("Found second dot in a number.".to_string()));
}

#[test]
fn lone_dot_is_not_a_number() {
    assert_eq!(tokenize("1 + ."), Err("invalid float literal".to_string()));
}

#[test]
fn leading_and_trailing_dots() {
    assert_eq!(
        tokenize(".5 5."),
        Ok(vec![Token::Number(".5".to_string()), Token::Number("5.".to_string())])
    );
}

#[test]
fn two_character_tokens() {
    assert_eq!(
        tokenize("-> - == = >= > <= < -"),
        Ok(vec![
            Token::Arrow,
            Token::Minus,
            Token::EqualEqual,
            Token::Equal,
            Token::GreaterEqual,
            Token::Greater,
            Token::LessEqual,
            Token::Less,
            Token::Minus,
        ])
    );
}

#[test]
fn brackets_and_punctuation() {
    assert_eq!(
        tokenize("()[]{};,&"),
        Ok(vec![
            Token::LParen,
            Token::RParen,
            Token::LBracket,
            Token::RBracket,
            Token::LBrace,
            Token::RBrace,
            Token::SemiColon,
            Token::Comma,
            Token::Ampersand,
        ])
    );
}

#[test]
fn keywords_and_names() {
    assert_eq!(
        tokenize("fn while fnx _w while2"),
        Ok(vec![
            Token::Function,
            Token::While,
            Token::Identifier("fnx".to_string()),
            Token::Identifier("_w".to_string()),
            Token::Identifier("while2".to_string()),
        ])
    );
}

#[test]
fn unknown_characters_are_skipped() {
    assert_eq!(
        tokenize("a $ # b"),
        Ok(vec![Token::Identifier("a".to_string()), Token::Identifier("b".to_string())])
    );
}

#[test]
fn empty_and_blank_sources() {
    assert_eq!(tokenize(""), Ok(vec![]));
    assert_eq!(tokenize(" \t\n "), Ok(vec![]));
}

#[test]
fn non_ascii_letters_form_names() {
    assert_eq!(tokenize("é1 ü"), Ok(vec![
        Token::Identifier("é1".to_string()),
        Token::Identifier("ü".to_string()),
    ]));
}

#[test]
fn number_runs_into_name() {
    assert_eq!(
        tokenize("12ab"),
        Ok(vec![Token::Number("12".to_string()), Token::Identifier("ab".to_string())])
    );
}

#[test]
fn cursor_moves_and_peeks() {
    let mut t = Tokenizer::new("ab  c");
    // nothing is read yet: the next character is the first one
    assert_eq!(t.peek_char(), 'a');
    t.next_char();
    assert_eq!(t.peek_char(), 'b');
    t.next_char();
    // on 'b', which is no whitespace: skipping leaves the cursor there
    t.skip_whitespace();
    assert_eq!(t.peek_char(), ' ');
    // tokenizing steps on and reads the rest
    assert_eq!(t.tokenize(), Ok(vec![Token::Identifier("c".to_string())]));
}

#[test]
fn nul_character_is_skipped_like_other_symbols() {
    assert_eq!(tokenize("\0 1..2"), Err("Found second dot in a number.".to_string()));
    assert_eq!(tokenize("a\0b"), Ok(vec![
        Token::Identifier("a".to_string()),
        Token::Identifier("b".to_string()),
    ]));
}

#[test]
fn skipping_stops_at_first_non_blank() {
    let mut t = Tokenizer::new("  \tx");
    t.next_char();
    t.skip_whitespace();
    // on 'x', the last character
    assert_eq!(t.peek_char(), '\0');
    assert_eq!(t.tokenize(), Ok(vec![]));
}

#[test]
fn tokenize_twice_gives_nothing_more() {
    let mut t = Tokenizer::new("a b");
    assert_eq!(t.tokenize().unwrap().len(), 2);
    assert_eq!(t.tokenize(), Ok(vec![]));
}
