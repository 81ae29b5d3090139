use json_parser::{parse_json, JsonValue};

fn round_trip(text: &str) {
    let first = parse_json(text).unwrap();
    let written = first.to_string();
    let second = parse_json(&written).unwrap();
    assert_eq!(first, second, "{} -> {}", text, written);
}

#[test]
fn to_string_formats_values() {
    let value = JsonValue::Object(vec![
        ("a".to_string(), JsonValue::Number("1".to_string())),
        (
            "b".to_string(),
            JsonValue::Array(vec![
                JsonValue::Boolean(true),
                JsonValue::Boolean(false),
                JsonValue::Null,
                JsonValue::String("x".to_string()),
            ]),
        ),
    ]);
    assert_eq!(value.to_string(), r#"{"a":1, "b":[true, false, null, "x"]}"#);
}

#[test]
fn to_string_escapes_strings() {
    let value = JsonValue::String("q\"b\\n\nc\u{1}".to_string());
    assert_eq!(value.to_string(), "\"q\\\"b\\\\n\\u000ac\\u0001\"");
}

#[test]
fn round_trip_keeps_the_value() {
    round_trip(r#"{"a":1,"b":[true,false,null]}"#);
    round_trip(r#"[-0.5e+10, 0, "x\"y\\z\n\u0001é", {}, [], {"k": {"k": [1.25]}}]"#);
    round_trip("[[[[[[[[[[[[[[[[[[[]]]]]]]]]]]]]]]]]]]");
}

#[test]
fn equality_is_structural() {
    let a = parse_json("[1, {\"k\": null}]").unwrap();
    let b = parse_json("[ 1 , { \"k\" : null } ]").unwrap();
    let c = parse_json("[1, {\"k\": false}]").unwrap();
    let d = parse_json("[1.0, {\"k\": null}]").unwrap();
    assert_eq!(a, b);
    assert_ne!(a, c);
    assert_ne!(a, d);
}

#[test]
fn write_to_appends() {
    let mut out = String::from("x = ");
    JsonValue::Array(vec![JsonValue::Null, JsonValue::Number("-2.5E3".to_string())]).write_to(&mut out);
    assert_eq!(out, "x = [null, -2.5E3]");
}

#[test]
fn empty_containers_are_written_bare() {
    assert_eq!(JsonValue::Array(vec![]).to_string(), "[]");
    assert_eq!(JsonValue::Object(vec![]).to_string(), "{}");
    assert_eq!(
        JsonValue::Object(vec![("".to_string(), JsonValue::Object(vec![]))]).to_string(),
        "{\"\":{}}"
    );
}

#[test]
fn clone_is_equal() {
    let value = parse_json(r#"{"a": [1, "x", {"b": null}], "c": true}"#).unwrap();
    let copy = value.clone();
    assert_eq!(copy, value);
    assert_eq!(copy.to_string(), value.to_string());
}

#[test]
fn pretty_string_indents_each_level() {
    let value = parse_json(r#"{"a":1,"b":[true,{}],"c":[]}"#).unwrap();
    assert_eq!(
        value.to_pretty_string(2),
        "{\n  \"a\": 1,\n  \"b\": [\n    true,\n    {}\n  ],\n  \"c\": []\n}"
    );
    assert_eq!(JsonValue::Array(vec![JsonValue::Null]).to_pretty_string(0), "[\nnull\n]");
    let round = parse_json(&value.to_pretty_string(4)).unwrap();
    assert_eq!(round, value);
}
