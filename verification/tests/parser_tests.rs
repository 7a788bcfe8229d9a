//! The parser, from text to value.
use json_parse::{parse, JsonElement};

/// A value, with a number as the machine number that its literal writes.
#[derive(Debug, PartialEq)]
enum Json {
    Null,
    Boolean(bool),
    Number(f64),
    String(String),
    Array(Vec<Json>),
    Object(Vec<(String, Json)>),
}

fn seen(found: JsonElement) -> Json {
    match found {
        JsonElement::Null => Json::Null,
        JsonElement::Boolean(b) => Json::Boolean(b),
        JsonElement::Number(literal) => Json::Number(literal.parse().unwrap()),
        JsonElement::String(text) => Json::String(text),
        JsonElement::Array(items) => Json::Array(items.into_iter().map(seen).collect()),
        JsonElement::Object(pairs) => {
            Json::Object(pairs.into_iter().map(|(key, value)| (key, seen(value))).collect())
        }
    }
}

fn _assert_parses(json: &str, expected: Json) {
    assert_eq!(parse(json).map(seen), Ok(expected));
}

fn _assert_fails(json: &str, line: usize, col: usize, msg: &str) {
    if let Err(parse_error) = parse(json) {
        assert_eq!(parse_error.line, line);
        assert_eq!(parse_error.column, col);
        assert!(parse_error.msg.contains(msg));
    } else {
        panic!("Did not fail as expected");
    }
}

#[test]
fn tests_test_basic_values() {
    _assert_parses("null", Json::Null);
    _assert_parses("true", Json::Boolean(true));
    _assert_parses("false", Json::Boolean(false));
    _assert_parses("0", Json::Number(0.0));
    _assert_parses(" -1.7e2 ", Json::Number(-170.0));
    _assert_parses("\"hey there\"", Json::String("hey there".into()));
    _assert_parses("[]", Json::Array(vec![]));
    _assert_parses("{}", Json::Object(vec![]));
}

#[test]
fn test_arrays_simple() {
    _assert_parses(
        "[1, 2, \"\\u0075\", false, {}]",
        Json::Array(vec![
            Json::Number(1.0),
            Json::Number(2.0),
            Json::String("u".into()),
            Json::Boolean(false),
            Json::Object(vec![]),
        ]),
    );
}

#[test]
fn test_arrays_trailing_comma() {
    _assert_fails("[1, 2, 3,]", 1, 9, "Unexpected ']'");
}

#[test]
fn test_arrays_unclosed() {
    _assert_fails(
        "[1, 2, 3 false",
        1,
        9,
        "Expected ']', found boolean (false)",
    );
}

#[test]
fn test_nested_arrays() {
    _assert_parses(
        "[ [ [ [ [ [ [ [ ] ] ] ] ] ] ] ]",
        Json::Array(vec![Json::Array(vec![Json::Array(vec![Json::Array(vec![Json::Array(vec![
            Json::Array(vec![Json::Array(vec![Json::Array(vec![])])]),
        ])])])])]),
    );
}

#[test]
fn test_nested_arrays_mismatched() {
    _assert_fails("[[[[]]]", 1, 7, "Expected ']', found end-of-file");
    _assert_fails("[[[]]]]", 1, 6, "Expected end-of-file, found ']'");
}

#[test]
fn test_objects_ok() {
    let json = r#"
    {
        "one": 1,
        "two" : [1, 2, 3],
        " other " : null ,
        "nested": {
            "one": 1
        }
    } "#;
    _assert_parses(
        json,
        Json::Object(vec![
            ("one".into(), Json::Number(1.0)),
            (
                "two".into(),
                Json::Array(vec![Json::Number(1.0), Json::Number(2.0), Json::Number(3.0)]),
            ),
            (" other ".into(), Json::Null),
            ("nested".into(), Json::Object(vec![("one".into(), Json::Number(1.0))])),
        ]),
    );
}

#[test]
fn test_objects_key_rules() {
    _assert_parses(
        // Keys are not case-sensitive
        r#"{"one": true, "ONE": false}"#,
        Json::Object(vec![
            ("one".into(), Json::Boolean(true)),
            ("ONE".into(), Json::Boolean(false)),
        ]),
    );

    _assert_parses(
        // Non-ascii keys allowed
        r#"{"ğŸ’©": true, "ç ": false}"#,
        Json::Object(vec![
            ("ğŸ’©".into(), Json::Boolean(true)),
            ("ç ".into(), Json::Boolean(false)),
        ]),
    );

    _assert_fails(
        // Duplicated keys at the same level not allowed
        r#"{"one": true, "one": false}"#,
        1,
        14,
        "Duplicated object key",
    );

    _assert_fails(
        // Test duplicated unicode-escaped keys
        r#"{"one": true, "\u006f\u006e\u0065": false}"#,
        1,
        14,
        "Duplicated object key",
    );

    _assert_fails(
        // Non-string keys not allowed
        r#"{1: "one", 2: "two"}"#,
        1,
        1,
        "Expected string, found number (1)",
    );
}
