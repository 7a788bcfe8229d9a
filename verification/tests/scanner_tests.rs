//! The scanner, token by token.
use json_parse::data::{JsonToken, TokenKind};
use json_parse::scanner::Scanner;

/// The kinds of token, with a number as the machine number that its literal
/// writes.
#[derive(Debug, PartialEq)]
enum Kind {
    LeftBrace,
    RightBrace,
    LeftBracket,
    RightBracket,
    Comma,
    Colon,
    True,
    False,
    Null,
    Number(f64),
    String(String),
    Eof,
}

#[derive(Debug, PartialEq)]
struct Token {
    kind: Kind,
    line: usize,
    column: usize,
}

fn token(kind: Kind, line: usize, column: usize) -> Token {
    Token { kind, line, column }
}

fn seen(found: JsonToken) -> Token {
    let kind = match found.kind {
        TokenKind::LeftBrace => Kind::LeftBrace,
        TokenKind::RightBrace => Kind::RightBrace,
        TokenKind::LeftBracket => Kind::LeftBracket,
        TokenKind::RightBracket => Kind::RightBracket,
        TokenKind::Comma => Kind::Comma,
        TokenKind::Colon => Kind::Colon,
        TokenKind::True => Kind::True,
        TokenKind::False => Kind::False,
        TokenKind::Null => Kind::Null,
        TokenKind::Number(literal) => Kind::Number(literal.parse().unwrap()),
        TokenKind::String(text) => Kind::String(text),
        TokenKind::Eof => Kind::Eof,
    };
    Token { kind, line: found.pos.line, column: found.pos.column }
}

fn _assert_token_sequence(src: &str, tokens: &[Token]) {
    let mut scanner = Scanner::new(src);
    for token in tokens {
        assert_eq!(scanner.next_token().map(seen).as_ref(), Ok(token));
    }
    assert!(matches!(
        scanner.next_token(),
        Ok(JsonToken { kind: TokenKind::Eof, .. })
    ));
}

fn _assert_fails(src: &str, line: usize, column: usize, error: &str) {
    let mut scanner = Scanner::new(src);
    let mut scanned;

    loop {
        scanned = scanner.next_token();
        if let Ok(JsonToken { kind: TokenKind::Eof, .. }) = scanned {
            panic!("Did not fail as expected");
        }

        if let Err(parse_error) = scanned {
            assert_eq!(parse_error.column, column);
            assert_eq!(parse_error.line, line);
            assert!(parse_error.msg.contains(error));
            return;
        }
    }
}

#[test]
fn test_basic_values() {
    let s = r#"  null
true false
false true
[ ] { } : ,
0 1 2 200 -100
" abcde "  "123456"
    "#;

    let expected = [
        token(Kind::Null, 1, 2),
        token(Kind::True, 2, 0),
        token(Kind::False, 2, 5),
        token(Kind::False, 3, 0),
        token(Kind::True, 3, 6),
        token(Kind::LeftBracket, 4, 0),
        token(Kind::RightBracket, 4, 2),
        token(Kind::LeftBrace, 4, 4),
        token(Kind::RightBrace, 4, 6),
        token(Kind::Colon, 4, 8),
        token(Kind::Comma, 4, 10),
        token(Kind::Number(0.0), 5, 0),
        token(Kind::Number(1.0), 5, 2),
        token(Kind::Number(2.0), 5, 4),
        token(Kind::Number(200.0), 5, 6),
        token(Kind::Number(-100.0), 5, 10),
        token(Kind::String(" abcde ".into()), 6, 0),
        token(Kind::String("123456".into()), 6, 11),
    ];

    _assert_token_sequence(s, &expected);
}

#[test]
fn test_eofs() {
    // Check that the scanner provides constant EOFs after running out of tokens, without further advancing.
    let s = "null";
    let mut scanner = Scanner::new(s);
    assert_eq!(scanner.next_token().map(seen), Ok(token(Kind::Null, 1, 0)));
    let first_eof = scanner.next_token().unwrap();

    for _ in 0..1000 {
        assert_eq!(first_eof, scanner.next_token().unwrap());
    }
}

#[test]
fn test_number_formats() {
    // Tests many different combinations of allowed number formats
    let s = r#"
0 1 20 300 0000001 -10 -800 -0000123
0.0 0.00001 123.456 -0.111 -000.9 -0000888.88
0e+0 0E10 1e1 0000123e+2 -20E5 -11e000012 10e-3 -123e-10
0.1e+1 000.001e+100 123.4E-2 -13.37e-8 -0.0E-0
    "#;

    let expected = [
        token(Kind::Number(0.0), 2, 0),
        token(Kind::Number(1.0), 2, 2),
        token(Kind::Number(20.0), 2, 4),
        token(Kind::Number(300.0), 2, 7),
        token(Kind::Number(1.0), 2, 11),
        token(Kind::Number(-10.0), 2, 19),
        token(Kind::Number(-800.0), 2, 23),
        token(Kind::Number(-123.0), 2, 28),
        token(Kind::Number(0.0), 3, 0),
        token(Kind::Number(0.00001), 3, 4),
        token(Kind::Number(123.456), 3, 12),
        token(Kind::Number(-0.111), 3, 20),
        token(Kind::Number(-0.9), 3, 27),
        token(Kind::Number(-888.88), 3, 34),
        token(Kind::Number(0.0), 4, 0),
        token(Kind::Number(0.0), 4, 5),
        token(Kind::Number(10.0), 4, 10),
        token(Kind::Number(12300.0), 4, 14),
        token(Kind::Number(-2000000.0), 4, 25),
        token(Kind::Number(-11e12), 4, 31),
        token(Kind::Number(0.01), 4, 42),
        token(Kind::Number(-123e-10), 4, 48),
        token(Kind::Number(1.0), 5, 0),
        token(Kind::Number(1e97), 5, 7),
        token(Kind::Number(1.234), 5, 20),
        token(Kind::Number(-13.37e-8), 5, 29),
        token(Kind::Number(0.0), 5, 39),
    ];

    _assert_token_sequence(s, &expected);
}

#[test]
fn test_lone_minus() {
    _assert_fails("- 132", 1, 1, "At least a digit is expected after '-'");
}

#[test]
fn test_fraction_without_integer() {
    _assert_fails(".123", 1, 0, "Unexpected character: '.'");
    _assert_fails("-.123", 1, 1, "At least a digit is expected after '-'");
}

#[test]
fn test_fraction_without_decimal() {
    _assert_fails(
        "0. ",
        1,
        2,
        "At least a digit is expected after a fraction dot",
    );
    _assert_fails(
        "-123.",
        1,
        5,
        "At least a digit is expected after a fraction dot",
    );
    _assert_fails(
        "1.e8",
        1,
        2,
        "At least a digit is expected after a fraction dot",
    );
}

#[test]
fn test_illegal_exponents() {
    _assert_fails(
        "123e",
        1,
        4,
        "At least a digit is expected after an exponent",
    );
    _assert_fails(
        "-90EA",
        1,
        4,
        "At least a digit is expected after an exponent",
    );
    _assert_fails(
        "-90E+A",
        1,
        5,
        "At least a digit is expected after an exponent",
    );
    _assert_fails("87.0e+1.2", 1, 7, "Unexpected character: '.'");
    _assert_fails(
        "87.0e.2",
        1,
        5,
        "At least a digit is expected after an exponent",
    );
}

#[test]
fn test_strings_ok() {
    let s = r#" "one"  "two" "three"
"four" "five"  "#;

    let expected = [
        token(Kind::String("one".into()), 1, 1),
        token(Kind::String("two".into()), 1, 8),
        token(Kind::String("three".into()), 1, 14),
        token(Kind::String("four".into()), 2, 0),
        token(Kind::String("five".into()), 2, 7),
    ];

    _assert_token_sequence(s, &expected);
}

#[test]
fn test_string_raw_newline_error() {
    // Checks that a string can't spawn multiple lines
    let s = r#" "this is a
misbehaving string!" "#;
    _assert_fails(s, 1, 11, "Line breaks are not allowed");
}

#[test]
fn test_string_control_characters() {
    // Checks that raw characters under 0x20 are rejected
    for ch in 0x00u8..0x20u8 {
        let mut s = String::from("\"blah ");
        s.push(ch as char);
        s.push_str(" blah\"");

        _assert_fails(&s, 1, 6, "not allowed inside a string");
    }
}

#[test]
fn test_successful_unicode_encoding_ascii() {
    let s = r#" "\u0075\u006e\u0069\u0063\u006f\u0064\u0065" "#;
    let tokens = [token(Kind::String("unicode".into()), 1, 1)];
    _assert_token_sequence(s, &tokens);
}

#[test]
fn test_successful_unicode_encoding_others() {
    let s = r#"
"\u044E\u043D\u0438\u043A\u043E\u0434"
"\u0075\u006E\u0069\u006B\u014D\u0064\u0073"
"\u7EDF\u4E00\u7801"
"\u064A\u0648\u0646\u064A\u0643\u0648\u062F"
"\u12E9\u1292\u12AE\u12F5"
"\u30E6\u30CB\u30B3\u30FC\u30C9"
"\uD83D\uDCA9"
"\u0079\u0306"
    "#;

    let tokens = [
        token(Kind::String("\u{44E}\u{43D}\u{438}\u{43A}\u{43E}\u{434}".into()), 2, 0),
        token(Kind::String("unik\u{14D}ds".into()), 3, 0),
        token(Kind::String("\u{7EDF}\u{4E00}\u{7801}".into()), 4, 0),
        token(Kind::String("\u{64A}\u{648}\u{646}\u{64A}\u{643}\u{648}\u{62F}".into()), 5, 0),
        token(Kind::String("\u{12E9}\u{1292}\u{12AE}\u{12F5}".into()), 6, 0),
        token(Kind::String("\u{30E6}\u{30CB}\u{30B3}\u{30FC}\u{30C9}".into()), 7, 0),
        token(Kind::String("\u{1F4A9}".into()), 8, 0),
        token(Kind::String("y\u{306}".into()), 9, 0),
    ];
    _assert_token_sequence(s, &tokens);
}

#[test]
fn test_successful_unicode_literals_others() {
    let s = r#"
"ÑĞ½Ğ¸ĞºĞ¾Ğ´"
"unikÅds"
"ç»Ÿä¸€ç "
"ÙŠÙˆÙ†ÙŠÙƒÙˆØ¯"
"á‹©áŠ’áŠ®á‹µ"
"ãƒ¦ãƒ‹ã‚³ãƒ¼ãƒ‰"
"ğŸ’©"
"yÌ†"
    "#;

    let tokens = [
        token(Kind::String("ÑĞ½Ğ¸ĞºĞ¾Ğ´".into()), 2, 0),
        token(Kind::String("unikÅds".into()), 3, 0),
        token(Kind::String("ç»Ÿä¸€ç ".into()), 4, 0),
        token(Kind::String("ÙŠÙˆÙ†ÙŠÙƒÙˆØ¯".into()), 5, 0),
        token(Kind::String("á‹©áŠ’áŠ®á‹µ".into()), 6, 0),
        token(Kind::String("ãƒ¦ãƒ‹ã‚³ãƒ¼ãƒ‰".into()), 7, 0),
        token(Kind::String("ğŸ’©".into()), 8, 0),
        token(Kind::String("yÌ†".into()), 9, 0),
    ];
    _assert_token_sequence(s, &tokens);
}

#[test]
fn test_unfinished_unicode_escape() {
    let s1 = r#" "Naughty: \uAB" "#; // Unfinished within closed string
    _assert_fails(s1, 1, 16, "Invalid Unicode escape sequence");
    let s2 = r#" "Naughty: \uAB"#; // Unexpected EOF
    _assert_fails(s2, 1, 16, "Invalid Unicode escape sequence");
}

#[test]
fn test_invalid_unicode_escape() {
    let s1 = r#" "Not a hex sequence: \u00PS" "#; // Invalid hex
    _assert_fails(s1, 1, 27, "Invalid Unicode escape sequence");
    let s2 = r#" "Error: \uD821 hehe" "#; // Lone high surrogate
    _assert_fails(s2, 1, 15, "unfinished character");
    let s3 = r#" "Error: \uD834\u0075" "#; // High surrogate + invalid follow-up
    _assert_fails(s3, 1, 20, "Invalid unicode character");
}

#[test]
fn test_byte_offsets() {
    // Introduces a bunch of strings with multi-byte characters,
    // then tests that the internal byte counters remain consistent
    // by using them to parse a number and a keyword.
    let s = r#"
"ÑĞ½Ğ¸ĞºĞ¾Ğ´"
"unikÅds"
"ç»Ÿä¸€ç "
"ÙŠÙˆÙ†ÙŠÙƒÙˆØ¯"
"á‹©áŠ’áŠ®á‹µ"
"ãƒ¦ãƒ‹ã‚³ãƒ¼ãƒ‰"
"ğŸ’©"
1.8e307
"yÌ†yÌ†yÌ†yÌ†yÌ†yÌ†yÌ†yÌ†yÌ†"
"i love ğ„ music ğ„"
true"#;
    let tokens = [
        token(Kind::String("ÑĞ½Ğ¸ĞºĞ¾Ğ´".into()), 2, 0),
        token(Kind::String("unikÅds".into()), 3, 0),
        token(Kind::String("ç»Ÿä¸€ç ".into()), 4, 0),
        token(Kind::String("ÙŠÙˆÙ†ÙŠÙƒÙˆØ¯".into()), 5, 0),
        token(Kind::String("á‹©áŠ’áŠ®á‹µ".into()), 6, 0),
        token(Kind::String("ãƒ¦ãƒ‹ã‚³ãƒ¼ãƒ‰".into()), 7, 0),
        token(Kind::String("ğŸ’©".into()), 8, 0),
        token(Kind::Number(1.8e307), 9, 0),
        token(Kind::String("yÌ†yÌ†yÌ†yÌ†yÌ†yÌ†yÌ†yÌ†yÌ†".into()), 10, 0),
        token(Kind::String("i love ğ„ music ğ„".into()), 11, 0),
        token(Kind::True, 12, 0),
    ];
    _assert_token_sequence(s, &tokens);
}
