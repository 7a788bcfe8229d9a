//! What holds of every text, tried on some.
use json_parse::data::{JsonToken, TokenKind, TokenPosition};
use json_parse::scanner::Scanner;
use json_parse::{parse, JsonElement};

/// The kinds of all tokens of `src`, the end marker included.
fn kinds_of_text(src: &str) -> Vec<TokenKind> {
    let mut scanner = Scanner::new(src);
    let mut kinds = Vec::new();
    loop {
        let token = scanner.next_token().unwrap();
        let done = token.kind == TokenKind::Eof;
        kinds.push(token.kind);
        if done {
            return kinds;
        }
    }
}

/// The tokens that write `value`.
fn kinds_of_value(value: &JsonElement, out: &mut Vec<TokenKind>) {
    match value {
        JsonElement::Null => out.push(TokenKind::Null),
        JsonElement::Boolean(true) => out.push(TokenKind::True),
        JsonElement::Boolean(false) => out.push(TokenKind::False),
        JsonElement::Number(n) => out.push(TokenKind::Number(n.clone())),
        JsonElement::String(s) => out.push(TokenKind::String(s.clone())),
        JsonElement::Array(items) => {
            out.push(TokenKind::LeftBracket);
            for (i, item) in items.iter().enumerate() {
                if i > 0 {
                    out.push(TokenKind::Comma);
                }
                kinds_of_value(item, out);
            }
            out.push(TokenKind::RightBracket);
        }
        JsonElement::Object(pairs) => {
            out.push(TokenKind::LeftBrace);
            for (i, (key, item)) in pairs.iter().enumerate() {
                if i > 0 {
                    out.push(TokenKind::Comma);
                }
                out.push(TokenKind::String(key.clone()));
                out.push(TokenKind::Colon);
                kinds_of_value(item, out);
            }
            out.push(TokenKind::RightBrace);
        }
    }
}

fn assert_value_mirrors_text(src: &str) {
    let value = parse(src).unwrap();
    let mut expected = Vec::new();
    kinds_of_value(&value, &mut expected);
    expected.push(TokenKind::Eof);
    assert_eq!(kinds_of_text(src), expected);
}

#[test]
fn value_mirrors_text() {
    assert_value_mirrors_text("null");
    assert_value_mirrors_text(" [ ] ");
    assert_value_mirrors_text("{}");
    assert_value_mirrors_text("[1, [2, [3, []]], {\"a\": {\"b\": [true, false, null]}}]");
    assert_value_mirrors_text("{\"k\": \"v\", \"n\": -1.5e3, \"l\": [\"\\u0041\", {}], \"o\": {}}");
    assert_value_mirrors_text("\n[\n  {\"x\": [ ]},\n  \"two\"\n]\n");
}

#[test]
fn shape_of_a_nested_value() {
    let value = parse("{\"a\": [1, {\"b\": null}], \"c\": \"d\"}").unwrap();
    assert_eq!(
        value,
        JsonElement::Object(vec![
            (
                "a".to_string(),
                JsonElement::Array(vec![
                    JsonElement::Number("1".to_string()),
                    JsonElement::Object(vec![("b".to_string(), JsonElement::Null)]),
                ])
            ),
            ("c".to_string(), JsonElement::String("d".to_string())),
        ])
    );
}

#[test]
fn end_marker_repeats_at_the_same_place() {
    let mut scanner = Scanner::new("1 \n ");
    assert_eq!(scanner.next_token().unwrap().kind, TokenKind::Number("1".to_string()));
    let first = scanner.next_token().unwrap();
    assert_eq!(first, JsonToken::new(TokenKind::Eof, 2, 1));
    for _ in 0..10 {
        assert_eq!(scanner.next_token(), Ok(first.clone()));
    }
}

#[test]
fn end_marker_of_an_empty_text() {
    let mut scanner = Scanner::new("");
    for _ in 0..3 {
        assert_eq!(scanner.next_token(), Ok(JsonToken::new(TokenKind::Eof, 1, 0)));
    }
}

#[test]
fn end_marker_after_an_error_at_the_end_of_the_text() {
    let mut scanner = Scanner::new("\"\\uAB");
    let e = scanner.next_token().unwrap_err();
    assert_eq!(e.msg, "Invalid Unicode escape sequence: 'AB' (should be a 4-character hex code)");
    assert_eq!((e.line, e.column), (1, 6));
    assert_eq!(scanner.next_token(), Ok(JsonToken::new(TokenKind::Eof, 1, 7)));
    assert_eq!(scanner.next_token(), Ok(JsonToken::new(TokenKind::Eof, 1, 7)));
}

#[test]
fn scanning_goes_on_after_an_error() {
    let mut scanner = Scanner::new("@ 1");
    assert!(scanner.next_token().is_err());
    assert_eq!(
        scanner.next_token(),
        Ok(JsonToken { kind: TokenKind::Number("1".to_string()), pos: TokenPosition { line: 1, column: 2 } })
    );
}

#[test]
fn order_of_members_is_kept() {
    let value = parse("{\"one\":1,\"two\":2}").unwrap();
    assert_eq!(
        value,
        JsonElement::Object(vec![
            ("one".to_string(), JsonElement::Number("1".to_string())),
            ("two".to_string(), JsonElement::Number("2".to_string())),
        ])
    );
    let value = parse("{\"z\":0,\"a\":0,\"m\":0}").unwrap();
    match value {
        JsonElement::Object(pairs) => {
            let keys: Vec<&str> = pairs.iter().map(|(k, _)| k.as_str()).collect();
            assert_eq!(keys, vec!["z", "a", "m"]);
        }
        _ => panic!("no object"),
    }
}

#[test]
fn order_of_items_is_kept() {
    assert_eq!(
        parse("[3, 1, 2]"),
        Ok(JsonElement::Array(vec![
            JsonElement::Number("3".to_string()),
            JsonElement::Number("1".to_string()),
            JsonElement::Number("2".to_string()),
        ]))
    );
}

#[test]
fn keys_differ_by_case() {
    assert_eq!(
        parse("{\"one\": true, \"ONE\": false}"),
        Ok(JsonElement::Object(vec![
            ("one".to_string(), JsonElement::Boolean(true)),
            ("ONE".to_string(), JsonElement::Boolean(false)),
        ]))
    );
}

#[test]
fn keys_are_compared_after_decoding() {
    let e = parse("{\"one\": true, \"\\u006f\\u006e\\u0065\": false}").unwrap_err();
    assert_eq!(e.msg, "Duplicated object key: \"one\"");
    assert_eq!((e.line, e.column), (1, 14));
    assert!(parse("{\"a\\n\": 1, \"a\\\\n\": 2}").is_ok());
}

fn all_keys_differ(value: &JsonElement) -> bool {
    match value {
        JsonElement::Array(items) => items.iter().all(all_keys_differ),
        JsonElement::Object(pairs) => {
            pairs.iter().enumerate().all(|(i, (key, item))| {
                pairs[..i].iter().all(|(other, _)| other != key) && all_keys_differ(item)
            })
        }
        _ => true,
    }
}

fn all_numbers_are_numbers(value: &JsonElement) -> bool {
    match value {
        JsonElement::Number(literal) => literal.parse::<f64>().is_ok(),
        JsonElement::Array(items) => items.iter().all(all_numbers_are_numbers),
        JsonElement::Object(pairs) => pairs.iter().all(|(_, item)| all_numbers_are_numbers(item)),
        _ => true,
    }
}

#[test]
fn parsed_value_is_well_formed() {
    let value =
        parse("{\"a\": [{\"a\": 1, \"b\": -0.5e-7}, {\"a\": 2E+3}], \"b\": {\"a\": {}, \"b\": 007}}")
            .unwrap();
    assert!(all_keys_differ(&value));
    assert!(all_numbers_are_numbers(&value));
}

#[test]
fn surrogate_pair_is_one_character() {
    assert_eq!(parse("\"\\uD83D\\uDCA9\""), Ok(JsonElement::String("\u{1F4A9}".to_string())));
    assert_eq!(parse("\"\\ud834\\udd1e\""), Ok(JsonElement::String("\u{1D11E}".to_string())));
    assert_eq!(parse("\"\\uD800\\uDC00\""), Ok(JsonElement::String("\u{10000}".to_string())));
    assert_eq!(parse("\"\\uDBFF\\uDFFF\""), Ok(JsonElement::String("\u{10FFFF}".to_string())));
}

#[test]
fn lone_high_surrogate_is_unfinished() {
    let e = parse("\"\\uD834\"").unwrap_err();
    assert!(e.msg.contains("unfinished character"));
    assert_eq!((e.line, e.column), (1, 7));
}

#[test]
fn escapes_stand_for_their_characters() {
    assert_eq!(
        parse("\"\\\" \\\\ \\/ \\b \\f \\n \\r \\t\""),
        Ok(JsonElement::String("\" \\ / \u{8} \u{c} \n \r \t".to_string()))
    );
    assert_eq!(parse("\"\\u0000\""), Ok(JsonElement::String("\0".to_string())));
    assert_eq!(parse("\"\\uD7FF\\uE000\\uffff\""), Ok(JsonElement::String("\u{D7FF}\u{E000}\u{FFFF}".to_string())));
    assert_eq!(parse("\"\\u00e9\\u00E9\""), Ok(JsonElement::String("\u{e9}\u{e9}".to_string())));
}

#[test]
fn characters_are_counted_not_bytes() {
    let mut scanner = Scanner::new("\"\u{1F4A9}\u{e9}\" 1");
    assert_eq!(
        scanner.next_token(),
        Ok(JsonToken::new(TokenKind::String("\u{1F4A9}\u{e9}".to_string()), 1, 0))
    );
    assert_eq!(scanner.next_token(), Ok(JsonToken::new(TokenKind::Number("1".to_string()), 1, 5)));
}

fn number(src: &str) -> f64 {
    match parse(src) {
        Ok(JsonElement::Number(literal)) => literal.parse().unwrap(),
        other => panic!("no number: {other:?}"),
    }
}

#[test]
fn numeric_edge_cases() {
    assert_eq!(number("-0000123"), -123.0);
    assert_eq!(number("0.1e+1"), 1.0);
    assert_eq!(number("-0"), 0.0);
    assert_eq!(number("1E2"), 100.0);
    assert_eq!(number("12.5e-1"), 1.25);
    assert!(parse("1.e8").unwrap_err().msg.contains("At least a digit is expected after a fraction dot"));
    assert!(parse("0.").unwrap_err().msg.contains("At least a digit is expected after a fraction dot"));
}

#[test]
fn number_keeps_its_literal() {
    assert_eq!(parse("-0000123"), Ok(JsonElement::Number("-0000123".to_string())));
    assert_eq!(parse(" 0.1e+1 "), Ok(JsonElement::Number("0.1e+1".to_string())));
    assert_eq!(parse("1E400"), Ok(JsonElement::Number("1E400".to_string())));
}

#[test]
fn number_ends_where_its_grammar_ends() {
    let mut scanner = Scanner::new("12-3");
    assert_eq!(scanner.next_token(), Ok(JsonToken::new(TokenKind::Number("12".to_string()), 1, 0)));
    assert_eq!(scanner.next_token(), Ok(JsonToken::new(TokenKind::Number("-3".to_string()), 1, 2)));
    let mut scanner = Scanner::new("1e5e6");
    assert_eq!(scanner.next_token(), Ok(JsonToken::new(TokenKind::Number("1e5".to_string()), 1, 0)));
    assert!(scanner.next_token().is_err());
}

#[test]
fn trailing_comma_is_rejected() {
    let e = parse("[1, 2, 3,]").unwrap_err();
    assert_eq!(e.msg, "Unexpected ']'");
    assert_eq!((e.line, e.column), (1, 9));
}

#[test]
fn unexpected_trailing_input() {
    let e = parse("[[[]]]]").unwrap_err();
    assert_eq!(e.msg, "Expected end-of-file, found ']'");
    assert_eq!((e.line, e.column), (1, 6));
}

#[test]
fn every_raw_control_character_is_rejected() {
    for code in 0u8..0x20 {
        let mut text = String::from("[\"ab");
        text.push(code as char);
        text.push_str("\"]");
        let e = parse(&text).unwrap_err();
        assert!(e.msg.contains("not allowed inside a string"));
        assert_eq!((e.line, e.column), (1, 4));
    }
}

#[test]
fn deep_nesting_is_parsed() {
    let depth = 200;
    let mut text = String::new();
    for _ in 0..depth {
        text.push('[');
    }
    for _ in 0..depth {
        text.push(']');
    }
    let mut value = parse(&text).unwrap();
    for _ in 1..depth {
        value = match value {
            JsonElement::Array(mut items) => {
                assert_eq!(items.len(), 1);
                items.pop().unwrap()
            }
            _ => panic!("no array"),
        };
    }
    assert_eq!(value, JsonElement::Array(vec![]));
}

const TEXTS: [&str; 9] = [
    "null",
    " true",
    "false ",
    "-12.5e+3",
    "\"a \\\" b\"",
    "[]",
    "[1, [2], {\"k\": []}]",
    "{}",
    " {\"a\": {\"b\": [null, 0]}, \"c\": \"d\"}\n",
];

#[test]
fn values_nest_in_an_array() {
    for a in TEXTS {
        for b in TEXTS {
            let x = parse(a).unwrap();
            let y = parse(b).unwrap();
            assert_eq!(parse(&format!("[{a},{b}]")), Ok(JsonElement::Array(vec![x, y])));
        }
    }
}

#[test]
fn a_value_nests_in_an_object() {
    for a in TEXTS {
        let x = parse(a).unwrap();
        assert_eq!(
            parse(&format!("{{\"k\":{a}}}")),
            Ok(JsonElement::Object(vec![("k".to_string(), x.clone())]))
        );
        assert_eq!(
            parse(&format!("{{\"a key, with: [signs]\":{a}}}")),
            Ok(JsonElement::Object(vec![("a key, with: [signs]".to_string(), x)]))
        );
    }
}

#[test]
fn blanks_leave_the_value() {
    for a in TEXTS {
        let x = parse(a).unwrap();
        assert_eq!(parse(&format!(" \t\r\n{a}\n\n  \t")), Ok(x.clone()));
        assert_eq!(parse(&format!("{a} ")), Ok(x.clone()));
        assert_eq!(parse(&format!("\n{a}")), Ok(x));
    }
}

#[test]
fn nothing_may_follow_the_value() {
    for a in TEXTS {
        for (follower, name) in
            [(']', "']'"), ('}', "'}'"), (',', "','"), (':', "':'"), ('[', "'['"), ('{', "'{'")]
        {
            let e = parse(&format!("{a}{follower}")).unwrap_err();
            assert_eq!(e.msg, format!("Expected end-of-file, found {name}"));
        }
    }
}

#[test]
fn positions_go_forward() {
    let text = " [1,\n  \"two\" , {\"k\":\n\n null}]\n ";
    let mut scanner = Scanner::new(text);
    let mut last = (1, 0);
    loop {
        let token = scanner.next_token().unwrap();
        let place = (token.pos.line, token.pos.column);
        assert!(token.pos.line >= 1);
        assert!(place >= last);
        last = place;
        if token.kind == TokenKind::Eof {
            break;
        }
    }
    assert_eq!(last, (5, 1));
}

#[test]
fn error_lies_at_or_after_the_tokens_before_it() {
    let mut scanner = Scanner::new("[true,\n  fals]");
    let mut last = (1, 0);
    let e = loop {
        match scanner.next_token() {
            Ok(token) => last = (token.pos.line, token.pos.column),
            Err(e) => break e,
        }
    };
    assert_eq!(last, (1, 5));
    assert_eq!((e.line, e.column), (2, 2));
    assert_eq!(e.msg, "Unknown keyword 'fals'");
}

#[test]
fn simple_escapes_pass_two_characters() {
    for (escape, decoded) in [
        ("\\\"", "\""),
        ("\\\\", "\\"),
        ("\\/", "/"),
        ("\\b", "\u{8}"),
        ("\\f", "\u{c}"),
        ("\\n", "\n"),
        ("\\r", "\r"),
        ("\\t", "\t"),
    ] {
        let mut scanner = Scanner::new(&format!("\"{escape}\" 1"));
        assert_eq!(
            scanner.next_token(),
            Ok(JsonToken::new(TokenKind::String(decoded.to_string()), 1, 0))
        );
        assert_eq!(
            scanner.next_token(),
            Ok(JsonToken::new(TokenKind::Number("1".to_string()), 1, 5))
        );
    }
}
