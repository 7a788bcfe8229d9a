//! Character classes of the JSON grammar, hexadecimal digits, UTF-16
//! surrogates, and the two operations of the standard library on characters
//! and strings that the scanner builds on.
use vstd::prelude::*;

verus! {

/// Specification of `String::push`: the character is added at the end and
/// nothing else changes.
pub assume_specification[ std::string::String::push ](text: &mut std::string::String, ch: char)
    ensures
        final(text)@ == old(text)@.push(ch),
;

/// Specification of `char::from_u32`: a Unicode scalar value (anything up
/// to U+10FFFF that is no surrogate) gives the character with that code, any
/// other number gives `None`.
pub assume_specification[ char::from_u32 ](code: u32) -> (ch: Option<char>)
    ensures
        scalar_value(code as int) ==> ch == Some(code as char),
        !scalar_value(code as int) ==> ch.is_none(),
;

/// Whether `code` is the code of a character: a Unicode scalar value.
pub open spec fn scalar_value(code: int) -> bool {
    0 <= code < 0xD800 || 0xE000 <= code <= 0x10FFFF
}

/// Letters that may make up a keyword: ASCII letters and the underscore.
pub open spec fn letter(c: char) -> bool {
    ('a' <= c && c <= 'z') || ('A' <= c && c <= 'Z') || c == '_'
}

/// ASCII decimal digits.
pub open spec fn digit(c: char) -> bool {
    '0' <= c && c <= '9'
}

/// What a number may begin with: a digit or a minus sign.
pub open spec fn number_start(c: char) -> bool {
    digit(c) || c == '-'
}

/// Whether the characters of `s` from `from` up to `to` are digits, and at
/// least one.
pub open spec fn digits(s: Seq<char>, from: int, to: int) -> bool {
    &&& 0 <= from < to <= s.len()
    &&& forall|i: int| from <= i < to ==> digit(#[trigger] s[i])
}

/// Whether `s` is a number literal whose parts end at the given places:
/// the integer part runs from `a` to `b`, the fraction, if there is one,
/// from `b` to `c`, and the digits of the exponent, if there is one, from
/// `d` to the end.
pub open spec fn number_parts(s: Seq<char>, a: int, b: int, c: int, d: int) -> bool {
    &&& a == 0 || (a == 1 && s[0] == '-')
    &&& digits(s, a, b)
    &&& c == b || (b < s.len() && s[b] == '.' && digits(s, b + 1, c))
    &&& b <= c <= s.len()
    &&& if c == s.len() {
        d == c
    } else {
        &&& s[c] == 'e' || s[c] == 'E'
        &&& d == c + 1 || (d == c + 2 && c + 1 < s.len() && (s[c + 1] == '+' || s[c + 1] == '-'))
        &&& digits(s, d, s.len() as int)
    }
}

/// Whether `s` is a number literal: an optional minus sign and one or more
/// digits; then, optionally, a dot and one or more digits; then,
/// optionally, `e` or `E`, an optional sign and one or more digits. Nothing
/// else, and nothing missing.
pub open spec fn number_literal(s: Seq<char>) -> bool {
    exists|a: int, b: int, c: int, d: int| number_parts(s, a, b, c, d)
}

/// ASCII hexadecimal digits, in either case.
pub open spec fn hex_digit(c: char) -> bool {
    digit(c) || ('a' <= c && c <= 'f') || ('A' <= c && c <= 'F')
}

/// Blank characters between tokens.
pub open spec fn blank(c: char) -> bool {
    c == ' ' || c == '\t' || c == '\r' || c == '\n'
}

/// Characters that may not stand unescaped inside a string: the quote, the
/// backslash and every control character below U+0020.
pub open spec fn forbidden(c: char) -> bool {
    c == '\\' || c == '"' || (c as int) < 0x20
}

/// First halves of a UTF-16 surrogate pair.
pub open spec fn high_surrogate(x: int) -> bool {
    0xD800 <= x <= 0xDBFF
}

/// Second halves of a UTF-16 surrogate pair.
pub open spec fn low_surrogate(x: int) -> bool {
    0xDC00 <= x <= 0xDFFF
}

/// The code point that a surrogate pair encodes.
pub open spec fn pair_code(high: int, low: int) -> int {
    0x10000 + (high - 0xD800) * 0x400 + (low - 0xDC00)
}

/// The value of one hexadecimal digit.
pub open spec fn hex_digit_value(c: char) -> int {
    if digit(c) {
        c as int - '0' as int
    } else if 'a' <= c && c <= 'f' {
        c as int - 'a' as int + 10
    } else {
        c as int - 'A' as int + 10
    }
}

/// The number that a run of hexadecimal digits writes, most significant
/// digit first.
pub open spec fn hex_value(s: Seq<char>) -> int
    decreases s.len(),
{
    if s.len() == 0 {
        0
    } else {
        16 * hex_value(s.drop_last()) + hex_digit_value(s.last())
    }
}

/// Whether every character of `s` is a hexadecimal digit.
pub open spec fn all_hex(s: Seq<char>) -> bool {
    forall|i: int| 0 <= i < s.len() ==> hex_digit(#[trigger] s[i])
}

/// The upper-case hexadecimal digit for `d`, which is below 16.
pub open spec fn hex_char(d: int) -> char {
    if d < 10 {
        ('0' as int + d) as char
    } else {
        ('A' as int + d - 10) as char
    }
}

/// `code` written as four upper-case hexadecimal digits.
pub open spec fn hex4(code: int) -> Seq<char> {
    seq![
        hex_char(code / 0x1000),
        hex_char((code / 0x100) % 0x10),
        hex_char((code / 0x10) % 0x10),
        hex_char(code % 0x10),
    ]
}

/// Whether `c` may stand in a keyword.
pub fn is_letter(c: char) -> (b: bool)
    ensures
        b == letter(c),
{
    ('a' <= c && c <= 'z') || ('A' <= c && c <= 'Z') || c == '_'
}

/// Whether `c` is a decimal digit.
pub fn is_number(c: char) -> (b: bool)
    ensures
        b == digit(c),
{
    '0' <= c && c <= '9'
}

/// Whether a number may begin with `c`.
pub fn is_number_start(c: char) -> (b: bool)
    ensures
        b == number_start(c),
{
    is_number(c) || c == '-'
}

/// Whether `c` is a hexadecimal digit.
pub fn is_hex_digit(c: char) -> (b: bool)
    ensures
        b == hex_digit(c),
{
    is_number(c) || ('a' <= c && c <= 'f') || ('A' <= c && c <= 'F')
}

/// Whether `c` may not stand unescaped inside a string.
pub fn is_forbidden_char(c: char) -> (b: bool)
    ensures
        b == forbidden(c),
{
    c == '\\' || c == '"' || c < ' '
}

/// Whether `x` is the first half of a surrogate pair.
pub fn is_high_surrogate(x: u16) -> (b: bool)
    ensures
        b == high_surrogate(x as int),
{
    0xD800 <= x && x <= 0xDBFF
}

/// Whether `x` is the second half of a surrogate pair.
pub fn is_low_surrogate(x: u16) -> (b: bool)
    ensures
        b == low_surrogate(x as int),
{
    0xDC00 <= x && x <= 0xDFFF
}

/// Whether `text` is made of hexadecimal digits only. The empty text is.
pub fn is_hex(text: &[char]) -> (b: bool)
    ensures
        b == all_hex(text@),
{
    let mut i: usize = 0;
    while i < text.len()
        invariant
            i <= text.len(),
            forall|k: int| 0 <= k < i ==> hex_digit(#[trigger] text@[k]),
        decreases text.len() - i,
    {
        if !is_hex_digit(text[i]) {
            return false;
        }
        i += 1;
    }
    true
}

fn hex_digit_number(c: char) -> (d: u16)
    requires
        hex_digit(c),
    ensures
        d as int == hex_digit_value(c),
        d < 16,
{
    let code: u32 = c as u32;
    if is_number(c) {
        (code - 48) as u16
    } else if 'a' <= c && c <= 'f' {
        (code - 97 + 10) as u16
    } else {
        (code - 65 + 10) as u16
    }
}

/// The number that up to four hexadecimal digits write.
pub fn hex_number(text: &[char]) -> (n: u16)
    requires
        text@.len() <= 4,
        all_hex(text@),
    ensures
        n as int == hex_value(text@),
        (n as int) < pow16(text@.len() as int),
{
    let mut n: u16 = 0;
    let mut i: usize = 0;
    while i < text.len()
        invariant
            i <= text.len() <= 4,
            all_hex(text@),
            n as int == hex_value(text@.subrange(0, i as int)),
            (n as int) < pow16(i as int),
        decreases text.len() - i,
    {
        let d = hex_digit_number(text[i]);
        proof {
            let before = text@.subrange(0, i as int);
            let after = text@.subrange(0, i as int + 1);
            assert(after.drop_last() =~= before);
            assert(after.last() == text@[i as int]);
        }
        n = n * 16 + d;
        i += 1;
    }
    assert(text@.subrange(0, i as int) =~= text@);
    n
}

/// Sixteen to the power `k`, for the few `k` that a four-digit number needs.
pub open spec fn pow16(k: int) -> int {
    if k <= 0 {
        1
    } else if k == 1 {
        0x10
    } else if k == 2 {
        0x100
    } else if k == 3 {
        0x1000
    } else {
        0x10000
    }
}

fn hex_digit_char(d: u16) -> (c: char)
    requires
        d < 16,
    ensures
        c == hex_char(d as int),
{
    if d < 10 {
        ((48 + d) as u8) as char
    } else {
        ((65 + d - 10) as u8) as char
    }
}

/// Appends `code` to `text` as four upper-case hexadecimal digits.
pub fn push_hex4(text: &mut String, code: u16)
    ensures
        final(text)@ == old(text)@ + hex4(code as int),
{
    text.push(hex_digit_char(code / 0x1000));
    text.push(hex_digit_char((code / 0x100) % 0x10));
    text.push(hex_digit_char((code / 0x10) % 0x10));
    text.push(hex_digit_char(code % 0x10));
    assert(final(text)@ =~= old(text)@ + hex4(code as int));
}

} // verus!
