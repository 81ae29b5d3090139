use json_parser::{Lexer, Token};

fn number_value(tok: &Token) -> f64 {
    match tok {
        Token::Number(text) => text.parse::<f64>().unwrap(),
        other => panic!("not a number: {:?}", other),
    }
}

#[test]
fn test_tokenize_empty_object() {
    let mut lexer = Lexer::new("{}");
    let tokens = lexer.tokenize();
    assert_eq!(tokens, vec![Token::OpenBrace, Token::CloseBrace]);
}

#[test]
fn test_tokenize_string() {
    let mut lexer = Lexer::new("\"hello\"");
    let tokens = lexer.tokenize();
    assert_eq!(tokens, vec![Token::String("hello".to_string())]);
}

#[test]
fn test_tokenize_number() {
    let mut lexer = Lexer::new("123.45");
    let tokens = lexer.tokenize();
    assert_eq!(tokens.len(), 1);
    assert_eq!(number_value(&tokens[0]), 123.45);
}

#[test]
fn test_tokenize_keywords() {
    let mut lexer = Lexer::new("true false null");
    let tokens = lexer.tokenize();
    assert_eq!(tokens, vec![Token::Boolean(true), Token::Boolean(false), Token::Null]);
}

#[test]
fn test_tokenize_complex() {
    let mut lexer = Lexer::new("{\"key\": [1, true, null]}");
    let tokens = lexer.tokenize();
    assert_eq!(tokens.len(), 11);
    assert_eq!(tokens[0], Token::OpenBrace);
    assert_eq!(tokens[1], Token::String("key".to_string()));
    assert_eq!(tokens[2], Token::Colon);
    assert_eq!(tokens[3], Token::OpenBracket);
    assert_eq!(number_value(&tokens[4]), 1.0);
    assert_eq!(tokens[5], Token::Comma);
    assert_eq!(tokens[6], Token::Boolean(true));
    assert_eq!(tokens[7], Token::Comma);
    assert_eq!(tokens[8], Token::Null);
    assert_eq!(tokens[9], Token::CloseBracket);
    assert_eq!(tokens[10], Token::CloseBrace);
}

#[test]
fn test_invalid_tokens() {
    // Leading zeros
    let mut lexer = Lexer::new("01");
    let tokens = lexer.tokenize();
    assert!(tokens.is_empty());

    // Unterminated string
    let mut lexer = Lexer::new("\"hello");
    let tokens = lexer.tokenize();
    assert!(tokens.is_empty());

    // Invalid escape sequence
    let mut lexer = Lexer::new("\"\\x\"");
    let tokens = lexer.tokenize();
    assert!(tokens.is_empty());
}

#[test]
fn number_keeps_its_text() {
    let mut lexer = Lexer::new("-0.5e+10 0 -12 3E2");
    let tokens = lexer.tokenize();
    assert_eq!(
        tokens,
        vec![
            Token::Number("-0.5e+10".to_string()),
            Token::Number("0".to_string()),
            Token::Number("-12".to_string()),
            Token::Number("3E2".to_string()),
        ]
    );
    assert_eq!(number_value(&tokens[0]), -0.5e10);
    assert_eq!(number_value(&tokens[3]), 300.0);
}

#[test]
fn malformed_numbers_stop_the_tokens() {
    for text in ["-", "1.", "1.e3", "1e", "1e+", "-01", "00", "-a", ".5"] {
        let mut lexer = Lexer::new(text);
        assert!(lexer.tokenize().is_empty(), "{}", text);
    }
}

#[test]
fn lexical_failure_keeps_the_prefix() {
    let mut lexer = Lexer::new("[1, @, 2]");
    let tokens = lexer.tokenize();
    assert_eq!(
        tokens,
        vec![Token::OpenBracket, Token::Number("1".to_string()), Token::Comma]
    );
}

#[test]
fn string_escapes_are_decoded() {
    let mut lexer = Lexer::new(r#""a\"b\\c\/d\be\ff\ng\rh\ti""#);
    let tokens = lexer.tokenize();
    assert_eq!(
        tokens,
        vec![Token::String("a\"b\\c/d\u{8}e\u{c}f\ng\rh\ti".to_string())]
    );
}

#[test]
fn unicode_escapes_are_decoded() {
    let mut lexer = Lexer::new(r#""\u0041\u00e9\u4E2D""#);
    let tokens = lexer.tokenize();
    assert_eq!(tokens, vec![Token::String("Aé中".to_string())]);
}

#[test]
fn unicode_escape_errors() {
    for text in [r#""\u12""#, r#""\u12G4""#, r#""\uD83D\uDE00""#, r#""\u+041""#] {
        let mut lexer = Lexer::new(text);
        assert!(lexer.tokenize().is_empty(), "{}", text);
    }
}

#[test]
fn control_characters_in_strings_are_rejected() {
    let mut lexer = Lexer::new("\"a\nb\"");
    assert!(lexer.tokenize().is_empty());
    let mut lexer = Lexer::new("\"a\u{1f}b\"");
    assert!(lexer.tokenize().is_empty());
}

#[test]
fn non_ascii_characters_count_once() {
    let mut lexer = Lexer::new("[\"世界\", true]");
    let tokens = lexer.tokenize();
    assert_eq!(
        tokens,
        vec![
            Token::OpenBracket,
            Token::String("世界".to_string()),
            Token::Comma,
            Token::Boolean(true),
            Token::CloseBracket,
        ]
    );
}

#[test]
fn keywords_must_be_whole() {
    for text in ["tru", "nul", "fals", "True", "nulL"] {
        let mut lexer = Lexer::new(text);
        assert!(lexer.tokenize().is_empty(), "{}", text);
    }
}

#[test]
fn next_token_reads_one_at_a_time() {
    let mut lexer = Lexer::new(" \t\r\n: ,");
    assert_eq!(lexer.next_token(), Some(Token::Colon));
    assert_eq!(lexer.next_token(), Some(Token::Comma));
    assert_eq!(lexer.next_token(), None);
}

#[test]
fn failed_keyword_stops_at_its_start() {
    let mut lexer = Lexer::new("[ trux");
    assert_eq!(lexer.next_token(), Some(Token::OpenBracket));
    assert_eq!(lexer.next_token(), None);
    assert_eq!(lexer.next_token(), None);
    let mut lexer = Lexer::new("truex");
    assert_eq!(lexer.next_token(), Some(Token::Boolean(true)));
    assert_eq!(lexer.next_token(), None);
}
