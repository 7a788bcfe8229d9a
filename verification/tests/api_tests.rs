//! The data model, the character classes and the messages, one by one.
use json_parse::chars::{
    hex_number, is_forbidden_char, is_hex, is_hex_digit, is_high_surrogate, is_letter,
    is_low_surrogate, is_number, is_number_start, push_hex4,
};
use json_parse::data::{JsonToken, TokenKind, TokenPosition};
use json_parse::messages::{
    digit_after_dot, digit_after_exponent, digit_after_minus, duplicated_key, expected_string,
    expected_token, invalid_character, invalid_escape, invalid_hex, invalid_pair, lone_backslash,
    push_chars, push_hex, string_error_msg, unexpected_character, unexpected_token,
    unfinished_character, unknown_keyword, unterminated_string,
};
use json_parse::parser::JsonParser;
use json_parse::{JsonElement, ParseError};

#[test]
fn position_begins_at_line_one() {
    assert_eq!(TokenPosition::default(), TokenPosition { line: 1, column: 0 });
}

#[test]
fn error_keeps_what_it_is_given() {
    let e = ParseError::new("oops".to_string(), 3, 7);
    assert_eq!(e.msg, "oops");
    assert_eq!(e.line, 3);
    assert_eq!(e.column, 7);
}

#[test]
fn token_keeps_what_it_is_given() {
    let token = JsonToken::new(TokenKind::Comma, 4, 2);
    assert_eq!(token.kind, TokenKind::Comma);
    assert_eq!(token.pos, TokenPosition { line: 4, column: 2 });
}

#[test]
fn placeholder_token() {
    assert_eq!(JsonToken::dummy(), JsonToken::new(TokenKind::Null, 0, 0));
}

#[test]
fn string_token_gives_its_text() {
    let token = JsonToken::new(TokenKind::String("text".to_string()), 1, 0);
    assert_eq!(token.get_string(), "text");
}

#[test]
fn kinds_compare_without_what_they_carry() {
    let one = TokenKind::Number("1".to_string());
    let two = TokenKind::Number("2".to_string());
    assert!(one.same_kind(&two));
    assert_ne!(one, two);
    assert!(TokenKind::String("a".to_string()).same_kind(&TokenKind::String(String::new())));
    assert!(!TokenKind::String("1".to_string()).same_kind(&one));
    assert!(TokenKind::Comma.same_kind(&TokenKind::Comma));
    assert!(!TokenKind::Comma.same_kind(&TokenKind::Colon));
    assert!(!TokenKind::True.same_kind(&TokenKind::False));
    assert!(!TokenKind::Null.same_kind(&TokenKind::Eof));
    assert!(!TokenKind::LeftBrace.same_kind(&TokenKind::LeftBracket));
    assert!(!TokenKind::RightBrace.same_kind(&TokenKind::RightBracket));
}

#[test]
fn kinds_are_named() {
    assert_eq!(TokenKind::LeftBrace.describe(), "'{'");
    assert_eq!(TokenKind::RightBrace.describe(), "'}'");
    assert_eq!(TokenKind::LeftBracket.describe(), "'['");
    assert_eq!(TokenKind::RightBracket.describe(), "']'");
    assert_eq!(TokenKind::Comma.describe(), "','");
    assert_eq!(TokenKind::Colon.describe(), "':'");
    assert_eq!(TokenKind::True.describe(), "boolean (true)");
    assert_eq!(TokenKind::False.describe(), "boolean (false)");
    assert_eq!(TokenKind::Null.describe(), "null");
    assert_eq!(TokenKind::Number("-1.5".to_string()).describe(), "number (-1.5)");
    assert_eq!(TokenKind::String("a b".to_string()).describe(), "string (\"a b\")");
    assert_eq!(TokenKind::Eof.describe(), "end-of-file");
}

#[test]
fn default_value_is_null() {
    assert_eq!(JsonElement::default(), JsonElement::Null);
}

#[test]
fn clone_is_the_same_tree() {
    let value = JsonElement::Object(vec![
        ("a".to_string(), JsonElement::Array(vec![JsonElement::Number("1".to_string()), JsonElement::Null])),
        ("b".to_string(), JsonElement::Object(vec![("c".to_string(), JsonElement::Boolean(true))])),
        ("d".to_string(), JsonElement::String("e".to_string())),
    ]);
    assert_eq!(value.clone(), value);
}

#[test]
fn parser_parses_its_text() {
    assert_eq!(JsonParser::from(" [true] ").parse(), Ok(JsonElement::Array(vec![JsonElement::Boolean(true)])));
    assert_eq!(
        JsonParser::from("nil").parse(),
        Err(ParseError::new("Unknown keyword 'nil'".to_string(), 1, 0))
    );
}

#[test]
fn character_classes() {
    assert!(is_letter('a') && is_letter('z') && is_letter('A') && is_letter('Z') && is_letter('_'));
    assert!(!is_letter('0') && !is_letter('-') && !is_letter('`') && !is_letter('{') && !is_letter('\u{e9}'));
    assert!(is_number('0') && is_number('9') && !is_number('/') && !is_number(':') && !is_number('a'));
    assert!(is_number_start('-') && is_number_start('5') && !is_number_start('+') && !is_number_start('.'));
    assert!(is_hex_digit('0') && is_hex_digit('a') && is_hex_digit('f') && is_hex_digit('A') && is_hex_digit('F'));
    assert!(!is_hex_digit('g') && !is_hex_digit('G') && !is_hex_digit('@') && !is_hex_digit('`'));
    assert!(is_forbidden_char('"') && is_forbidden_char('\\') && is_forbidden_char('\0') && is_forbidden_char('\u{1f}'));
    assert!(!is_forbidden_char(' ') && !is_forbidden_char('/') && !is_forbidden_char('\u{7f}'));
}

#[test]
fn surrogate_ranges() {
    assert!(is_high_surrogate(0xD800) && is_high_surrogate(0xDBFF));
    assert!(!is_high_surrogate(0xD7FF) && !is_high_surrogate(0xDC00));
    assert!(is_low_surrogate(0xDC00) && is_low_surrogate(0xDFFF));
    assert!(!is_low_surrogate(0xDBFF) && !is_low_surrogate(0xE000));
}

#[test]
fn hexadecimal_texts() {
    assert!(is_hex(&['a', 'F', '0', '9']));
    assert!(is_hex(&[]));
    assert!(!is_hex(&['1', 'g']));
    assert!(!is_hex(&['+', '1']));
    assert_eq!(hex_number(&[]), 0);
    assert_eq!(hex_number(&['A', 'B']), 0xAB);
    assert_eq!(hex_number(&['0', '0', '7', '5']), 0x75);
    assert_eq!(hex_number(&['f', 'f', 'f', 'f']), 0xFFFF);
    assert_eq!(hex_number(&['d', '8', '3', 'D']), 0xD83D);
}

#[test]
fn hexadecimal_writing() {
    let mut text = String::from("x");
    push_hex4(&mut text, 0x00AB);
    assert_eq!(text, "x00AB");
    push_hex4(&mut text, 0xFFFF);
    push_hex4(&mut text, 0);
    push_hex4(&mut text, 0x1a2b);
    assert_eq!(text, "x00ABFFFF00001A2B");
    let mut text = String::new();
    push_hex(&mut text, '\u{1}');
    push_hex(&mut text, '\u{1F4A9}');
    push_hex(&mut text, '\u{10FFFF}');
    push_hex(&mut text, '\u{FFFF}');
    assert_eq!(text, "00011F4A910FFFFFFFF");
}

#[test]
fn characters_are_appended() {
    let mut text = String::from("ab");
    push_chars(&mut text, &['c', '\u{e9}', 'd']);
    push_chars(&mut text, &[]);
    assert_eq!(text, "abc\u{e9}d");
}

#[test]
fn messages_of_the_scanner() {
    assert_eq!(unexpected_character('#'), "Unexpected character: '#'");
    assert_eq!(unterminated_string(), "Unterminated string");
    assert_eq!(
        string_error_msg('\n'),
        "Line breaks are not allowed inside a string (hint: you can escape them as \\n)"
    );
    assert_eq!(
        string_error_msg('\u{7}'),
        "The control character U+0007 is not allowed inside a string (hint: you can escape it as \\u0007"
    );
    assert_eq!(
        string_error_msg('\u{1F4A9}'),
        "The control character U+1F4A9 is not allowed inside a string (hint: you can escape it as \\u1F4A9"
    );
    assert_eq!(
        lone_backslash(),
        "A lone \\ is not allowed inside a string (hint: you can escape it with \\\\)"
    );
    assert_eq!(invalid_escape('q'), "Invalid escape sequence: \\q");
    assert_eq!(
        unfinished_character(0xD801),
        "The Unicode sequence 'D801' represents an unfinished character. A follow-up Unicode escape sequence was expected but not found."
    );
    assert_eq!(invalid_character(0xDC01), "Invalid unicode character: \\uDC01");
    assert_eq!(invalid_pair(0xD801, 0x0041), "Invalid unicode character: \\uD801\\u0041");
    assert_eq!(
        invalid_hex(&['1', 'x']),
        "Invalid Unicode escape sequence: '1x' (should be a 4-character hex code)"
    );
    assert_eq!(digit_after_minus(), "At least a digit is expected after '-'");
    assert_eq!(digit_after_dot(), "At least a digit is expected after a fraction dot");
    assert_eq!(digit_after_exponent(), "At least a digit is expected after an exponent");
    assert_eq!(unknown_keyword(&['n', 'o']), "Unknown keyword 'no'");
    assert_eq!(
        unknown_keyword(&['N', 'u', 'L', 'l']),
        "Unknown keyword 'NuLl' (hint: maybe you meant 'null')"
    );
    assert_eq!(unknown_keyword(&['t', 'r', 'u', 'e', 's']), "Unknown keyword 'trues'");
}

#[test]
fn messages_of_the_parser() {
    assert_eq!(unexpected_token(&TokenKind::Eof), "Unexpected end-of-file");
    assert_eq!(
        expected_token(&TokenKind::Colon, &TokenKind::Number("7".to_string())),
        "Expected ':', found number (7)"
    );
    assert_eq!(expected_string(&TokenKind::LeftBracket), "Expected string, found '['");
    assert_eq!(duplicated_key("k"), "Duplicated object key: \"k\"");
}
