use json_parser::{JsonValue, Lexer, ParseError, Parser, Token};

fn parse(input: &str) -> Result<JsonValue, ParseError> {
    let mut lexer = Lexer::new(input);
    let tokens = lexer.tokenize();

    if tokens.is_empty() {
        return Err(ParseError::InvalidJson);
    }

    if tokens[0] != Token::OpenBrace && tokens[0] != Token::OpenBracket {
        return Err(ParseError::InvalidJson);
    }

    let mut parser = Parser::new(tokens);
    parser.parse()
}

#[test]
fn test_parse_object() {
    let result = parse("{}");
    assert!(result.is_ok());
    assert_eq!(result.unwrap(), JsonValue::Object(vec![]));
}

#[test]
fn test_parse_array() {
    let result = parse("[]");
    assert!(result.is_ok());
    assert_eq!(result.unwrap(), JsonValue::Array(vec![]));
}

#[test]
fn test_invalid_root_values() {
    assert!(parse("\"hello\"").is_err());
    assert!(parse("42").is_err());
    assert!(parse("true").is_err());
    assert!(parse("false").is_err());
    assert!(parse("null").is_err());
}

#[test]
fn test_valid_nested_values() {
    let result = parse(r#"{"key": "hello"}"#);
    assert!(result.is_ok());

    let result = parse(r#"{"key": 42}"#);
    assert!(result.is_ok());

    let result = parse(r#"{"key": true}"#);
    assert!(result.is_ok());

    let result = parse(r#"{"key": false}"#);
    assert!(result.is_ok());

    let result = parse(r#"{"key": null}"#);
    assert!(result.is_ok());

    let result = parse(r#"[1, "hello", true, false, null]"#);
    assert!(result.is_ok());
}

#[test]
fn test_trailing_commas() {
    assert!(parse(r#"[1, 2, 3, ]"#).is_err());
    assert!(parse(r#"{"a": 1, "b": 2, }"#).is_err());
}

#[test]
fn test_max_depth() {
    let valid_depth = "[[[[[[[[[[[[[[[[[[[]]]]]]]]]]]]]]]]]]]";
    assert!(parse(valid_depth).is_ok());

    let exceeding_depth = "[[[[[[[[[[[[[[[[[[[\"Too deep\"]]]]]]]]]]]]]]]]]]]]";
    assert!(parse(exceeding_depth).is_err());
}

#[test]
fn parser_accepts_a_literal_root() {
    let mut parser = Parser::new(vec![Token::Number("42".to_string())]);
    assert_eq!(parser.parse().unwrap(), JsonValue::Number("42".to_string()));
}

#[test]
fn parser_on_no_tokens() {
    let mut parser = Parser::new(vec![]);
    assert_eq!(parser.parse().unwrap_err(), ParseError::UnexpectedEndOfInput);
}

#[test]
fn parser_error_variants() {
    assert_eq!(parse("[1,]").unwrap_err(), ParseError::UnexpectedToken);
    assert_eq!(parse("{}}").unwrap_err(), ParseError::UnexpectedToken);
    assert_eq!(parse("{1:2}").unwrap_err(), ParseError::UnexpectedToken);
    assert_eq!(parse("[,1]").unwrap_err(), ParseError::UnexpectedToken);
    assert_eq!(parse("[1").unwrap_err(), ParseError::UnexpectedEndOfInput);
    assert_eq!(parse("{\"a\":").unwrap_err(), ParseError::UnexpectedEndOfInput);
    assert_eq!(parse("{\"a\" 1}").unwrap_err(), ParseError::ExpectedColon);
    assert_eq!(parse("{\"a\"").unwrap_err(), ParseError::ExpectedColon);
    assert_eq!(parse("{\"a\":1 \"b\":2}").unwrap_err(), ParseError::ExpectedCommaOrCloseBrace);
    assert_eq!(parse("[1 2]").unwrap_err(), ParseError::ExpectedCommaOrCloseBracket);
    assert_eq!(parse("[1}").unwrap_err(), ParseError::ExpectedCommaOrCloseBracket);
}

#[test]
fn object_keeps_duplicate_keys_in_order() {
    let value = parse(r#"{"k": 1, "k": 2}"#).unwrap();
    assert_eq!(
        value,
        JsonValue::Object(vec![
            ("k".to_string(), JsonValue::Number("1".to_string())),
            ("k".to_string(), JsonValue::Number("2".to_string())),
        ])
    );
}

#[test]
fn parser_is_spent_after_one_value() {
    let mut lexer = Lexer::new("[true]");
    let mut parser = Parser::new(lexer.tokenize());
    assert_eq!(parser.parse().unwrap(), JsonValue::Array(vec![JsonValue::Boolean(true)]));
    assert_eq!(parser.parse().unwrap_err(), ParseError::UnexpectedEndOfInput);
}
