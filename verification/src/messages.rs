//! The wording of every error that the scanner and the parser report. Each
//! message has a specification, which gives its text as a sequence of
//! characters, and a function that builds that text.
use vstd::prelude::*;
use crate::chars::{hex4, hex_char, push_hex4};
use crate::data::{KindView, TokenKind};

verus! {

/// `code` in upper-case hexadecimal, with at least four digits.
pub open spec fn hex_text(code: int) -> Seq<char> {
    if code < 0x10000 {
        hex4(code)
    } else if code < 0x100000 {
        seq![hex_char(code / 0x10000)] + hex4(code % 0x10000)
    } else {
        seq![hex_char(code / 0x100000), hex_char((code / 0x10000) % 0x10)] + hex4(code % 0x10000)
    }
}

/// The words that every complaint about a raw character inside a string
/// shares.
pub open spec fn not_allowed_text() -> Seq<char> {
    "not allowed inside a string"@
}

/// A character that begins no token.
pub open spec fn unexpected_character_text(x: char) -> Seq<char> {
    "Unexpected character: '"@ + seq![x] + "'"@
}

/// The text ends inside a string.
pub open spec fn unterminated_string_text() -> Seq<char> {
    "Unterminated string"@
}

/// What is said of a raw control character inside a string. Line breaks,
/// tabs, carriage returns, backspaces and form feeds are called by name, any
/// other character by its code.
pub open spec fn string_error_text(ch: char) -> Seq<char> {
    if ch == '\n' {
        "Line breaks are "@ + not_allowed_text() + " (hint: you can escape them as \\n)"@
    } else if ch == '\t' {
        "Literal tabs are "@ + not_allowed_text() + " (hint: you can escape them as \\t)"@
    } else if ch == '\r' {
        "Carriage return line breaks are "@ + not_allowed_text()
            + " (hint: you can escape them as \\r)"@
    } else if ch == '\x08' {
        "Backspace control characters are "@ + not_allowed_text()
            + " (hint: you can escape them as \\b)"@
    } else if ch == '\x0C' {
        "Form-feed control characters are "@ + not_allowed_text()
            + " (hint: you can escape them as \\f)"@
    } else {
        "The control character U+"@ + hex_text(ch as int) + " is "@ + not_allowed_text()
            + " (hint: you can escape it as \\u"@ + hex_text(ch as int)
    }
}

/// A backslash with nothing to escape: a space follows it, or the end of the text.
pub open spec fn lone_backslash_text() -> Seq<char> {
    "A lone \\ is "@ + not_allowed_text() + " (hint: you can escape it with \\\\)"@
}

/// A backslash before a character that begins no escape sequence.
pub open spec fn invalid_escape_text(x: char) -> Seq<char> {
    "Invalid escape sequence: \\"@ + seq![x]
}

/// The first half of a surrogate pair with no `\u` escape behind it.
pub open spec fn unfinished_character_text(code: int) -> Seq<char> {
    "The Unicode sequence '"@ + hex4(code)
        + "' represents an unfinished character. A follow-up Unicode escape sequence was expected but not found."@
}

/// A `\u` escape that holds the second half of a surrogate pair and no first.
pub open spec fn invalid_character_text(code: int) -> Seq<char> {
    "Invalid unicode character: \\u"@ + hex4(code)
}

/// The first half of a surrogate pair with an escape behind it that is no second half.
pub open spec fn invalid_pair_text(code: int, code2: int) -> Seq<char> {
    "Invalid unicode character: \\u"@ + hex4(code) + "\\u"@ + hex4(code2)
}

/// A `\u` escape whose digits are missing or no hexadecimal digits.
pub open spec fn invalid_hex_text(digits: Seq<char>) -> Seq<char> {
    "Invalid Unicode escape sequence: '"@ + digits + "' (should be a 4-character hex code)"@
}

/// A minus sign with no digit behind it.
pub open spec fn digit_after_minus_text() -> Seq<char> {
    "At least a digit is expected after '-'"@
}

/// A fraction dot with no digit behind it.
pub open spec fn digit_after_dot_text() -> Seq<char> {
    "At least a digit is expected after a fraction dot"@
}

/// An exponent with no digit in it.
pub open spec fn digit_after_exponent_text() -> Seq<char> {
    "At least a digit is expected after an exponent"@
}

/// `c` in lower case, where it is an ASCII upper-case letter.
pub open spec fn lower(c: char) -> char {
    if 'A' <= c && c <= 'Z' {
        (c as int + 32) as char
    } else {
        c
    }
}

/// `word` with every ASCII upper-case letter in lower case.
pub open spec fn lowered(word: Seq<char>) -> Seq<char> {
    Seq::new(word.len(), |i: int| lower(word[i]))
}

/// The hint that follows an unknown keyword: it names the keyword that the
/// word spells when case is ignored, if there is one.
pub open spec fn keyword_hint_text(word: Seq<char>) -> Seq<char> {
    if lowered(word) == "true"@ {
        " (hint: maybe you meant 'true')"@
    } else if lowered(word) == "false"@ {
        " (hint: maybe you meant 'false')"@
    } else if lowered(word) == "null"@ {
        " (hint: maybe you meant 'null')"@
    } else {
        Seq::empty()
    }
}

/// A word that is none of `true`, `false` and `null`.
pub open spec fn unknown_keyword_text(word: Seq<char>) -> Seq<char> {
    "Unknown keyword '"@ + word + "'"@ + keyword_hint_text(word)
}

/// A token with which no value begins, where a value must stand.
pub open spec fn unexpected_token_text(found: KindView) -> Seq<char> {
    "Unexpected "@ + found.describe()
}

/// A token of another kind than the grammar asks for.
pub open spec fn expected_token_text(expected: KindView, found: KindView) -> Seq<char> {
    "Expected "@ + expected.describe() + ", found "@ + found.describe()
}

/// A token that is no string, where the key of a member must stand.
pub open spec fn expected_string_text(found: KindView) -> Seq<char> {
    "Expected string, found "@ + found.describe()
}

/// A key that an earlier member of the same object has.
pub open spec fn duplicated_key_text(key: Seq<char>) -> Seq<char> {
    "Duplicated object key: \""@ + key + "\""@
}

fn push_hex_digit(text: &mut String, d: u32)
    requires
        d < 16,
    ensures
        final(text)@ == old(text)@.push(hex_char(d as int)),
{
    let c: u8 = if d < 10 {
        (48 + d) as u8
    } else {
        (65 + d - 10) as u8
    };
    text.push(c as char);
}

/// Appends the code of `ch` in upper-case hexadecimal, four digits or more.
pub fn push_hex(text: &mut String, ch: char)
    ensures
        final(text)@ == old(text)@ + hex_text(ch as int),
{
    let code: u32 = ch as u32;
    if code >= 0x100000 {
        push_hex_digit(text, code / 0x100000);
    }
    if code >= 0x10000 {
        push_hex_digit(text, (code / 0x10000) % 0x10);
    }
    push_hex4(text, (code % 0x10000) as u16);
    assert(final(text)@ =~= old(text)@ + hex_text(ch as int));
}

/// The message of [`unexpected_character_text`].
pub fn unexpected_character(x: char) -> (msg: String)
    ensures
        msg@ == unexpected_character_text(x),
{
    let mut msg = String::from_str("Unexpected character: '");
    msg.push(x);
    msg.append("'");
    assert(msg@ =~= unexpected_character_text(x));
    msg
}

/// The message of [`unterminated_string_text`].
pub fn unterminated_string() -> (msg: String)
    ensures
        msg@ == unterminated_string_text(),
{
    String::from_str("Unterminated string")
}

fn not_allowed(subject: &str, hint: &str) -> (msg: String)
    ensures
        msg@ == subject@ + not_allowed_text() + hint@,
{
    let mut msg = String::from_str(subject);
    msg.append("not allowed inside a string");
    msg.append(hint);
    msg
}

/// The message for a raw control character `ch` found inside a string.
pub fn string_error_msg(ch: char) -> (msg: String)
    ensures
        msg@ == string_error_text(ch),
{
    if ch == '\n' {
        not_allowed("Line breaks are ", " (hint: you can escape them as \\n)")
    } else if ch == '\t' {
        not_allowed("Literal tabs are ", " (hint: you can escape them as \\t)")
    } else if ch == '\r' {
        not_allowed("Carriage return line breaks are ", " (hint: you can escape them as \\r)")
    } else if ch == '\x08' {
        not_allowed("Backspace control characters are ", " (hint: you can escape them as \\b)")
    } else if ch == '\x0C' {
        not_allowed("Form-feed control characters are ", " (hint: you can escape them as \\f)")
    } else {
        let mut msg = String::from_str("The control character U+");
        push_hex(&mut msg, ch);
        msg.append(" is ");
        msg.append("not allowed inside a string");
        msg.append(" (hint: you can escape it as \\u");
        push_hex(&mut msg, ch);
        msg
    }
}

/// The message of [`lone_backslash_text`].
pub fn lone_backslash() -> (msg: String)
    ensures
        msg@ == lone_backslash_text(),
{
    not_allowed("A lone \\ is ", " (hint: you can escape it with \\\\)")
}

/// The message of [`invalid_escape_text`].
pub fn invalid_escape(x: char) -> (msg: String)
    ensures
        msg@ == invalid_escape_text(x),
{
    let mut msg = String::from_str("Invalid escape sequence: \\");
    msg.push(x);
    assert(msg@ =~= invalid_escape_text(x));
    msg
}

/// The message of [`unfinished_character_text`].
pub fn unfinished_character(code: u16) -> (msg: String)
    ensures
        msg@ == unfinished_character_text(code as int),
{
    let mut msg = String::from_str("The Unicode sequence '");
    push_hex4(&mut msg, code);
    msg.append(
        "' represents an unfinished character. A follow-up Unicode escape sequence was expected but not found.",
    );
    msg
}

/// The message of [`invalid_character_text`].
pub fn invalid_character(code: u16) -> (msg: String)
    ensures
        msg@ == invalid_character_text(code as int),
{
    let mut msg = String::from_str("Invalid unicode character: \\u");
    push_hex4(&mut msg, code);
    msg
}

/// The message of [`invalid_pair_text`].
pub fn invalid_pair(code: u16, code2: u16) -> (msg: String)
    ensures
        msg@ == invalid_pair_text(code as int, code2 as int),
{
    let mut msg = String::from_str("Invalid unicode character: \\u");
    push_hex4(&mut msg, code);
    msg.append("\\u");
    push_hex4(&mut msg, code2);
    msg
}

/// Appends the characters of `chars` to `text`.
pub fn push_chars(text: &mut String, chars: &[char])
    ensures
        final(text)@ == old(text)@ + chars@,
{
    let mut i: usize = 0;
    while i < chars.len()
        invariant
            i <= chars.len(),
            text@ == old(text)@ + chars@.subrange(0, i as int),
        decreases chars.len() - i,
    {
        text.push(chars[i]);
        i += 1;
        assert(text@ =~= old(text)@ + chars@.subrange(0, i as int));
    }
    assert(chars@.subrange(0, i as int) =~= chars@);
}

/// The message of [`invalid_hex_text`].
pub fn invalid_hex(digits: &[char]) -> (msg: String)
    ensures
        msg@ == invalid_hex_text(digits@),
{
    let mut msg = String::from_str("Invalid Unicode escape sequence: '");
    push_chars(&mut msg, digits);
    msg.append("' (should be a 4-character hex code)");
    msg
}

/// The message of [`digit_after_minus_text`].
pub fn digit_after_minus() -> (msg: String)
    ensures
        msg@ == digit_after_minus_text(),
{
    String::from_str("At least a digit is expected after '-'")
}

/// The message of [`digit_after_dot_text`].
pub fn digit_after_dot() -> (msg: String)
    ensures
        msg@ == digit_after_dot_text(),
{
    String::from_str("At least a digit is expected after a fraction dot")
}

/// The message of [`digit_after_exponent_text`].
pub fn digit_after_exponent() -> (msg: String)
    ensures
        msg@ == digit_after_exponent_text(),
{
    String::from_str("At least a digit is expected after an exponent")
}

fn to_lower(c: char) -> (l: char)
    ensures
        l == lower(c),
{
    if 'A' <= c && c <= 'Z' {
        ((c as u32 + 32) as u8) as char
    } else {
        c
    }
}

/// Whether `word`, with its upper-case letters lowered, spells `keyword`.
fn spells(word: &[char], keyword: &str) -> (b: bool)
    ensures
        b == (lowered(word@) == keyword@),
{
    if keyword.unicode_len() != word.len() {
        return false;
    }
    let mut i: usize = 0;
    while i < word.len()
        invariant
            i <= word.len(),
            keyword@.len() == word@.len(),
            forall|k: int| 0 <= k < i ==> lower(word@[k]) == #[trigger] keyword@[k],
        decreases word.len() - i,
    {
        if to_lower(word[i]) != keyword.get_char(i) {
            assert(lowered(word@)[i as int] != keyword@[i as int]);
            return false;
        }
        i += 1;
    }
    assert(lowered(word@) =~= keyword@);
    true
}

/// The message of [`unknown_keyword_text`].
pub fn unknown_keyword(word: &[char]) -> (msg: String)
    ensures
        msg@ == unknown_keyword_text(word@),
{
    let mut msg = String::from_str("Unknown keyword '");
    push_chars(&mut msg, word);
    msg.append("'");
    if spells(word, "true") {
        msg.append(" (hint: maybe you meant 'true')");
    } else if spells(word, "false") {
        msg.append(" (hint: maybe you meant 'false')");
    } else if spells(word, "null") {
        msg.append(" (hint: maybe you meant 'null')");
    }
    assert(msg@ =~= unknown_keyword_text(word@));
    msg
}

/// The message of [`unexpected_token_text`].
pub fn unexpected_token(found: &TokenKind) -> (msg: String)
    ensures
        msg@ == unexpected_token_text(found@),
{
    let mut msg = String::from_str("Unexpected ");
    let name = found.describe();
    msg.append(name.as_str());
    msg
}

/// The message of [`expected_token_text`].
pub fn expected_token(expected: &TokenKind, found: &TokenKind) -> (msg: String)
    ensures
        msg@ == expected_token_text(expected@, found@),
{
    let mut msg = String::from_str("Expected ");
    let wanted = expected.describe();
    msg.append(wanted.as_str());
    msg.append(", found ");
    let name = found.describe();
    msg.append(name.as_str());
    msg
}

/// The message of [`expected_string_text`].
pub fn expected_string(found: &TokenKind) -> (msg: String)
    ensures
        msg@ == expected_string_text(found@),
{
    let mut msg = String::from_str("Expected string, found ");
    let name = found.describe();
    msg.append(name.as_str());
    msg
}

/// The message of [`duplicated_key_text`].
pub fn duplicated_key(key: &str) -> (msg: String)
    ensures
        msg@ == duplicated_key_text(key@),
{
    let mut msg = String::from_str("Duplicated object key: \"");
    msg.append(key);
    msg.append("\"");
    msg
}

} // verus!
