use json_parser::{parse_json, validate_json, JsonValue, ParseError};

fn nested_arrays(levels: usize, inner: &str) -> String {
    let mut text = String::new();
    for _ in 0..levels {
        text.push('[');
    }
    text.push_str(inner);
    for _ in 0..levels {
        text.push(']');
    }
    text
}

fn nested_objects(levels: usize) -> String {
    let mut text = String::new();
    for _ in 1..levels {
        text.push_str("{\"k\":");
    }
    text.push_str("{}");
    for _ in 1..levels {
        text.push('}');
    }
    text
}

#[test]
fn main_test_empty_object() {
    let result = parse_json("{}");
    assert!(result.is_ok());
}

#[test]
fn test_string_key_value() {
    let result = parse_json("{\"key\": \"value\"}");
    assert!(result.is_ok());
}

#[test]
fn test_multiple_types() {
    let result = parse_json(
        "{\"key1\": true, \"key2\": false, \"key3\": null, \"key4\": \"value\", \"key5\": 101}",
    );
    assert!(result.is_ok());
}

#[test]
fn test_nested_structures() {
    let result = parse_json("{\"key\": \"value\", \"key-n\": 101, \"key-o\": {}, \"key-l\": []}");
    assert!(result.is_ok());
}

#[test]
fn test_complex_json() {
    let json = r#"
        {
            "string": "Hello World",
            "number": 42,
            "boolean": true,
            "null": null,
            "array": [1, 2, 3, "four", null, true, {"nested": "object"}],
            "object": {
                "nested": "value",
                "another": 123
            }
        }
        "#;
    let result = parse_json(json);
    assert!(result.is_ok());
}

#[test]
fn main_test_invalid_json() {
    let result = parse_json("{");
    assert!(result.is_err());

    let result = parse_json("}{");
    assert!(result.is_err());

    let result = parse_json("{\"key\": \"unclosed string}");
    assert!(result.is_err());

    let result = parse_json("true");
    assert!(result.is_err());

    let result = parse_json("123");
    assert!(result.is_err());

    let result = parse_json("\"string\"");
    assert!(result.is_err());

    let result = parse_json("null");
    assert!(result.is_err());
}

#[test]
fn test_test_empty_object() {
    let input = "{}";
    assert!(parse_json(input).is_ok());
}

#[test]
fn test_empty_array() {
    let input = "[]";
    assert!(parse_json(input).is_ok());
}

#[test]
fn test_test_invalid_json() {
    let input = "{";
    assert!(parse_json(input).is_err());
}

#[test]
fn empty_containers_with_whitespace() {
    assert_eq!(parse_json("{}").unwrap(), JsonValue::Object(vec![]));
    assert_eq!(parse_json("[]").unwrap(), JsonValue::Array(vec![]));
    assert_eq!(parse_json(" \n{ \t}\r\n").unwrap(), JsonValue::Object(vec![]));
    assert_eq!(parse_json("\t[\n]  ").unwrap(), JsonValue::Array(vec![]));
}

#[test]
fn small_document_parses_in_order() {
    let value = parse_json(r#"{"a":1,"b":[true,false,null]}"#).unwrap();
    assert_eq!(
        value,
        JsonValue::Object(vec![
            ("a".to_string(), JsonValue::Number("1".to_string())),
            (
                "b".to_string(),
                JsonValue::Array(vec![
                    JsonValue::Boolean(true),
                    JsonValue::Boolean(false),
                    JsonValue::Null,
                ])
            ),
        ])
    );
    match &value {
        JsonValue::Object(members) => match &members[0].1 {
            JsonValue::Number(text) => assert_eq!(text.parse::<f64>().unwrap(), 1.0),
            other => panic!("unexpected {:?}", other),
        },
        other => panic!("unexpected {:?}", other),
    }
}

#[test]
fn trailing_commas_are_rejected() {
    assert_eq!(parse_json("[1,2,]").unwrap_err(), ParseError::UnexpectedToken);
    assert_eq!(parse_json(r#"{"a":1,}"#).unwrap_err(), ParseError::UnexpectedToken);
    assert!(parse_json("[[1,],2]").is_err());
}

#[test]
fn leading_zero_root_is_invalid() {
    assert_eq!(parse_json("01").unwrap_err(), ParseError::InvalidJson);
    assert_eq!(parse_json("[01]").unwrap_err(), ParseError::UnexpectedEndOfInput);
}

#[test]
fn depth_boundary_for_arrays() {
    assert_eq!(
        parse_json(&nested_arrays(19, "")).unwrap().to_string(),
        nested_arrays(19, "")
    );
    assert_eq!(parse_json(&nested_arrays(20, "")).unwrap_err(), ParseError::InvalidJson);
    assert_eq!(parse_json(&nested_arrays(20, "1")).unwrap_err(), ParseError::InvalidJson);
}

#[test]
fn depth_boundary_for_objects() {
    assert!(parse_json(&nested_objects(19)).is_ok());
    assert_eq!(parse_json(&nested_objects(20)).unwrap_err(), ParseError::InvalidJson);
}

#[test]
fn non_container_roots_are_invalid() {
    for text in ["\"hello\"", "42", "true", "false", "null", "-1.5e3"] {
        assert_eq!(parse_json(text).unwrap_err(), ParseError::InvalidJson, "{}", text);
    }
    assert!(parse_json("[\"hello\", 42, true, null]").is_ok());
}

#[test]
fn empty_and_blank_inputs_are_invalid() {
    assert_eq!(parse_json("").unwrap_err(), ParseError::InvalidJson);
    assert_eq!(parse_json(" \n\t ").unwrap_err(), ParseError::InvalidJson);
    assert_eq!(parse_json("@").unwrap_err(), ParseError::InvalidJson);
}

#[test]
fn lexical_failure_truncates_then_parser_decides() {
    assert_eq!(parse_json("[1, @]").unwrap_err(), ParseError::UnexpectedToken);
    assert_eq!(parse_json("[1 @]").unwrap_err(), ParseError::UnexpectedEndOfInput);
    assert_eq!(parse_json("[] @").unwrap(), JsonValue::Array(vec![]));
}

#[test]
fn validate_json_matches_parse_json() {
    assert_eq!(validate_json("{\"a\": [1, 2]}"), Ok(()));
    assert_eq!(validate_json("[1,]"), Err(ParseError::UnexpectedToken));
    assert_eq!(validate_json("42"), Err(ParseError::InvalidJson));
}
