//! Every error that the scanner and the parser report: its wording and its
//! position.
use json_parse::data::{JsonToken, ParseError, TokenKind};
use json_parse::parse;
use json_parse::scanner::Scanner;

/// The first error that scanning `src` meets.
fn scan_error(src: &str) -> ParseError {
    let mut scanner = Scanner::new(src);
    loop {
        match scanner.next_token() {
            Ok(JsonToken { kind: TokenKind::Eof, .. }) => panic!("no error in {src:?}"),
            Ok(_) => {}
            Err(e) => return e,
        }
    }
}

fn error(msg: &str, line: usize, column: usize) -> ParseError {
    ParseError::new(msg.to_string(), line, column)
}

#[test]
fn unexpected_character_is_named() {
    assert_eq!(scan_error("@"), error("Unexpected character: '@'", 1, 0));
    assert_eq!(scan_error("[1, ?]"), error("Unexpected character: '?'", 1, 4));
    assert_eq!(scan_error("\n\n  +1"), error("Unexpected character: '+'", 3, 2));
    assert_eq!(scan_error("."), error("Unexpected character: '.'", 1, 0));
}

#[test]
fn nul_character_in_the_text_is_unexpected() {
    assert_eq!(scan_error("1 \0 2"), error("Unexpected character: '\0'", 1, 2));
}

#[test]
fn unterminated_string_is_reported_at_its_last_character() {
    assert_eq!(scan_error("\"abc"), error("Unterminated string", 1, 3));
    assert_eq!(scan_error("\""), error("Unterminated string", 1, 0));
    assert_eq!(scan_error("  \"a\\n"), error("Unterminated string", 1, 5));
}

#[test]
fn raw_control_characters_are_called_by_name() {
    assert_eq!(
        scan_error("\"a\nb\""),
        error("Line breaks are not allowed inside a string (hint: you can escape them as \\n)", 1, 2)
    );
    assert_eq!(
        scan_error("\"a\tb\""),
        error("Literal tabs are not allowed inside a string (hint: you can escape them as \\t)", 1, 2)
    );
    assert_eq!(
        scan_error("\"a\rb\""),
        error(
            "Carriage return line breaks are not allowed inside a string (hint: you can escape them as \\r)",
            1,
            2
        )
    );
    assert_eq!(
        scan_error("\"a\u{8}b\""),
        error(
            "Backspace control characters are not allowed inside a string (hint: you can escape them as \\b)",
            1,
            2
        )
    );
    assert_eq!(
        scan_error("\"a\u{c}b\""),
        error(
            "Form-feed control characters are not allowed inside a string (hint: you can escape them as \\f)",
            1,
            2
        )
    );
}

#[test]
fn other_control_characters_are_called_by_code() {
    assert_eq!(
        scan_error("\"\u{1}\""),
        error(
            "The control character U+0001 is not allowed inside a string (hint: you can escape it as \\u0001",
            1,
            1
        )
    );
    assert_eq!(
        scan_error("\"abc\u{1f}\""),
        error(
            "The control character U+001F is not allowed inside a string (hint: you can escape it as \\u001F",
            1,
            4
        )
    );
    assert_eq!(
        scan_error("\"\0\""),
        error(
            "The control character U+0000 is not allowed inside a string (hint: you can escape it as \\u0000",
            1,
            1
        )
    );
}

#[test]
fn control_character_after_escapes_is_rejected() {
    let e = scan_error("\"a\\n\u{1}\"");
    assert!(e.msg.contains("not allowed inside a string"));
    assert_eq!((e.line, e.column), (1, 4));
}

#[test]
fn lone_backslash_before_a_space() {
    assert_eq!(
        scan_error("\"a\\ b\""),
        error("A lone \\ is not allowed inside a string (hint: you can escape it with \\\\)", 1, 3)
    );
}

#[test]
fn lone_backslash_at_the_end_of_the_text() {
    assert_eq!(
        scan_error("\"a\\"),
        error("A lone \\ is not allowed inside a string (hint: you can escape it with \\\\)", 1, 3)
    );
}

#[test]
fn invalid_escape_names_the_character() {
    assert_eq!(scan_error("\"\\x\""), error("Invalid escape sequence: \\x", 1, 2));
    assert_eq!(scan_error("\"ab\\0\""), error("Invalid escape sequence: \\0", 1, 4));
    assert_eq!(scan_error("\"\\\0\""), error("Invalid escape sequence: \\\0", 1, 2));
}

#[test]
fn unfinished_surrogate_pair() {
    let msg = "The Unicode sequence 'D834' represents an unfinished character. A follow-up Unicode escape sequence was expected but not found.";
    assert_eq!(scan_error("\"\\uD834\""), error(msg, 1, 7));
    assert_eq!(scan_error("\"\\uD834\\x\""), error(msg, 1, 8));
    assert_eq!(scan_error("\"\\uD834"), error(msg, 1, 7));
    assert_eq!(
        scan_error("\"\\udbff x\""),
        error(
            "The Unicode sequence 'DBFF' represents an unfinished character. A follow-up Unicode escape sequence was expected but not found.",
            1,
            7
        )
    );
}

#[test]
fn lone_low_surrogate_is_no_character() {
    assert_eq!(scan_error("\"\\uDC00\""), error("Invalid unicode character: \\uDC00", 1, 6));
    assert_eq!(scan_error("\"\\udfff\""), error("Invalid unicode character: \\uDFFF", 1, 6));
}

#[test]
fn high_surrogate_needs_a_low_one() {
    assert_eq!(
        scan_error("\"\\uD834\\u0075\""),
        error("Invalid unicode character: \\uD834\\u0075", 1, 12)
    );
    assert_eq!(
        scan_error("\"\\uD834\\uD834\""),
        error("Invalid unicode character: \\uD834\\uD834", 1, 12)
    );
    assert_eq!(
        scan_error("\"\\uD834\\uE000\""),
        error("Invalid unicode character: \\uD834\\uE000", 1, 12)
    );
}

#[test]
fn short_low_half_at_the_end_of_the_text() {
    assert_eq!(
        scan_error("\"\\uD834\\uDC"),
        error("Invalid Unicode escape sequence: 'DC' (should be a 4-character hex code)", 1, 12)
    );
}

#[test]
fn escape_that_is_no_hexadecimal_number() {
    assert_eq!(
        scan_error("\"\\u00PS\""),
        error("Invalid Unicode escape sequence: '00PS' (should be a 4-character hex code)", 1, 6)
    );
    assert_eq!(
        scan_error("\"\\u12\" "),
        error("Invalid Unicode escape sequence: '12\" ' (should be a 4-character hex code)", 1, 6)
    );
    assert_eq!(
        scan_error("\"\\u+123\""),
        error("Invalid Unicode escape sequence: '+123' (should be a 4-character hex code)", 1, 6)
    );
}

#[test]
fn escape_with_nothing_after_it() {
    assert_eq!(
        scan_error("\"\\u"),
        error("Invalid Unicode escape sequence: '' (should be a 4-character hex code)", 1, 6)
    );
}

#[test]
fn short_escape_at_the_end_of_the_text_is_invalid() {
    assert_eq!(
        scan_error("\"\\uAB"),
        error("Invalid Unicode escape sequence: 'AB' (should be a 4-character hex code)", 1, 6)
    );
    assert_eq!(
        scan_error("\"\\u0"),
        error("Invalid Unicode escape sequence: '0' (should be a 4-character hex code)", 1, 6)
    );
    assert_eq!(
        scan_error("\"\\u123"),
        error("Invalid Unicode escape sequence: '123' (should be a 4-character hex code)", 1, 6)
    );
}

#[test]
fn escape_needs_all_four_digits() {
    assert_eq!(
        scan_error("\"\\u123\""),
        error("Invalid Unicode escape sequence: '123\"' (should be a 4-character hex code)", 1, 6)
    );
    assert_eq!(json_parse::parse("\"\\u0041\""), Ok(json_parse::JsonElement::String("A".to_string())));
}

#[test]
fn minus_needs_a_digit() {
    assert_eq!(scan_error("-"), error("At least a digit is expected after '-'", 1, 1));
    assert_eq!(scan_error("-a"), error("At least a digit is expected after '-'", 1, 1));
    assert_eq!(scan_error("[--1]"), error("At least a digit is expected after '-'", 1, 2));
}

#[test]
fn fraction_needs_a_digit() {
    let msg = "At least a digit is expected after a fraction dot";
    assert_eq!(scan_error("1."), error(msg, 1, 2));
    assert_eq!(scan_error("1.."), error(msg, 1, 2));
    assert_eq!(scan_error("-12.x"), error(msg, 1, 4));
}

#[test]
fn exponent_needs_a_digit() {
    let msg = "At least a digit is expected after an exponent";
    assert_eq!(scan_error("1e"), error(msg, 1, 2));
    assert_eq!(scan_error("1e+"), error(msg, 1, 3));
    assert_eq!(scan_error("1E-x"), error(msg, 1, 3));
    assert_eq!(scan_error("1.5e "), error(msg, 1, 4));
}

#[test]
fn unknown_keyword_is_reported_at_its_start() {
    assert_eq!(scan_error("nul"), error("Unknown keyword 'nul'", 1, 0));
    assert_eq!(scan_error("  truee"), error("Unknown keyword 'truee'", 1, 2));
    assert_eq!(scan_error("[_]"), error("Unknown keyword '_'", 1, 1));
    assert_eq!(scan_error("nulL_"), error("Unknown keyword 'nulL_'", 1, 0));
}

#[test]
fn unknown_keyword_hints_at_the_keyword_it_spells() {
    assert_eq!(
        scan_error("TRUE"),
        error("Unknown keyword 'TRUE' (hint: maybe you meant 'true')", 1, 0)
    );
    assert_eq!(
        scan_error("False"),
        error("Unknown keyword 'False' (hint: maybe you meant 'false')", 1, 0)
    );
    assert_eq!(
        scan_error("\n nULL"),
        error("Unknown keyword 'nULL' (hint: maybe you meant 'null')", 2, 1)
    );
}

#[test]
fn unexpected_token_where_a_value_must_stand() {
    assert_eq!(parse("}"), Err(error("Unexpected '}'", 1, 0)));
    assert_eq!(parse("]"), Err(error("Unexpected ']'", 1, 0)));
    assert_eq!(parse(":"), Err(error("Unexpected ':'", 1, 0)));
    assert_eq!(parse(" ,"), Err(error("Unexpected ','", 1, 1)));
    assert_eq!(parse("[1,,2]"), Err(error("Unexpected ','", 1, 3)));
    assert_eq!(parse("{\"a\":}"), Err(error("Unexpected '}'", 1, 5)));
}

#[test]
fn empty_text_has_no_value() {
    assert_eq!(parse(""), Err(error("Unexpected end-of-file", 1, 0)));
    assert_eq!(parse(" \n\t "), Err(error("Unexpected end-of-file", 2, 2)));
    assert_eq!(parse("["), Err(error("Unexpected end-of-file", 1, 1)));
}

#[test]
fn expected_token_names_both_kinds() {
    assert_eq!(parse("[1 2]"), Err(error("Expected ']', found number (2)", 1, 3)));
    assert_eq!(parse("[null null]"), Err(error("Expected ']', found null", 1, 6)));
    assert_eq!(parse("[true \"x\"]"), Err(error("Expected ']', found string (\"x\")", 1, 6)));
    assert_eq!(parse("{\"a\" 1}"), Err(error("Expected ':', found number (1)", 1, 5)));
    assert_eq!(parse("{\"a\":1 \"b\"}"), Err(error("Expected '}', found string (\"b\")", 1, 7)));
    assert_eq!(parse("{\"a\":1 ]"), Err(error("Expected '}', found ']'", 1, 7)));
    assert_eq!(parse("{\"a\":[] {"), Err(error("Expected '}', found '{'", 1, 8)));
    assert_eq!(parse("[[] ["), Err(error("Expected ']', found '['", 1, 4)));
    assert_eq!(parse("[1 :"), Err(error("Expected ']', found ':'", 1, 3)));
}

#[test]
fn text_after_the_value_is_rejected() {
    assert_eq!(parse("1 2"), Err(error("Expected end-of-file, found number (2)", 1, 2)));
    assert_eq!(parse("true false"), Err(error("Expected end-of-file, found boolean (false)", 1, 5)));
    assert_eq!(parse("null\ntrue"), Err(error("Expected end-of-file, found boolean (true)", 2, 0)));
    assert_eq!(parse("{},"), Err(error("Expected end-of-file, found ','", 1, 2)));
}

#[test]
fn object_key_must_be_a_string() {
    assert_eq!(parse("{,}"), Err(error("Expected string, found ','", 1, 1)));
    assert_eq!(parse("{\"a\":1,}"), Err(error("Expected string, found '}'", 1, 7)));
    assert_eq!(parse("{true: 1}"), Err(error("Expected string, found boolean (true)", 1, 1)));
    assert_eq!(parse("{"), Err(error("Expected string, found end-of-file", 1, 1)));
}

#[test]
fn number_in_a_message_is_written_as_in_the_text() {
    assert_eq!(parse("{1.0: 2}"), Err(error("Expected string, found number (1.0)", 1, 1)));
    assert_eq!(parse("[1 -2e5]"), Err(error("Expected ']', found number (-2e5)", 1, 3)));
}

#[test]
fn duplicated_key_is_reported_at_its_second_occurrence() {
    assert_eq!(
        parse("{\"one\": true, \"one\": false}"),
        Err(error("Duplicated object key: \"one\"", 1, 14))
    );
    assert_eq!(
        parse("{\"a\":1,\n \"b\":2,\n \"a\":3}"),
        Err(error("Duplicated object key: \"a\"", 3, 1))
    );
    assert_eq!(parse("{\"\":1,\"\":2}"), Err(error("Duplicated object key: \"\"", 1, 6)));
}

#[test]
fn duplicated_key_is_found_before_its_value_is_read() {
    assert_eq!(
        parse("{\"a\":1,\"a\" oops"),
        Err(error("Unknown keyword 'oops'", 1, 11))
    );
    assert_eq!(
        parse("{\"a\":1,\"a\" 1"),
        Err(error("Duplicated object key: \"a\"", 1, 7))
    );
}

#[test]
fn same_key_in_another_object_is_no_duplicate() {
    assert!(parse("{\"a\":{\"a\":{\"a\":1}},\"b\":{\"a\":2}}").is_ok());
    assert!(parse("[{\"a\":1},{\"a\":2}]").is_ok());
}

#[test]
fn error_of_the_scanner_comes_before_that_of_the_parser() {
    assert_eq!(parse("} @"), Err(error("Unexpected character: '@'", 1, 2)));
    assert_eq!(parse("[1 \"x"), Err(error("Unterminated string", 1, 4)));
    assert_eq!(parse("[1, 2 tru"), Err(error("Unknown keyword 'tru'", 1, 6)));
}

#[test]
fn error_deep_inside_a_text() {
    let bad_json = "\n    {\n        \"one\": 1,\n        2: \"two\"\n    }\n";
    assert_eq!(parse(bad_json), Err(error("Expected string, found number (2)", 4, 8)));
}
