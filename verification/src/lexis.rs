//! What scanning means: the lexical grammar of JSON as functions from a text
//! and a place in it to a token, or an error, and the place where scanning
//! went on to.
//!
//! A text is a sequence of characters and a place in it is a [`Cursor`]. A
//! cursor may stand past the end of the text: reading there gives U+0000,
//! and stepping on from there still counts a column, so that an error met
//! at the end of the text is reported where the missing character would be.
use vstd::prelude::*;
use crate::chars::{
    all_hex, blank, digit, forbidden, hex_value, high_surrogate, letter, low_surrogate,
    number_start, pair_code,
};
use crate::data::{ErrorView, KindView, TokenView};
use crate::messages::{
    digit_after_dot_text, digit_after_exponent_text, digit_after_minus_text, invalid_character_text,
    invalid_escape_text, invalid_hex_text, invalid_pair_text, lone_backslash_text,
    string_error_text, unexpected_character_text, unfinished_character_text,
    unknown_keyword_text, unterminated_string_text,
};

verus! {

/// A place in a text: the index of the next character, and the line and
/// column that a reader would give to it.
pub struct Cursor {
    pub index: int,
    pub line: int,
    pub column: int,
}

impl Cursor {
    /// The beginning of a text.
    pub open spec fn start() -> Cursor {
        Cursor { index: 0, line: 1, column: 0 }
    }

    /// The cursor after `n` more characters of the same line.
    pub open spec fn steps(self, n: int) -> Cursor {
        Cursor { index: self.index + n, line: self.line, column: self.column + n }
    }

    /// The cursor after one more character of the same line.
    pub open spec fn step(self) -> Cursor {
        self.steps(1)
    }

    /// The cursor after a line feed.
    pub open spec fn next_line(self) -> Cursor {
        Cursor { index: self.index + 1, line: self.line + 1, column: 0 }
    }
}

/// The outcome of one scanning step, and where it stopped.
pub struct Step<T> {
    pub outcome: Result<T, ErrorView>,
    pub cursor: Cursor,
}

/// The character at `index`, or U+0000 where the text has none.
pub open spec fn char_at(src: Seq<char>, index: int) -> char {
    if 0 <= index < src.len() {
        src[index]
    } else {
        '\0'
    }
}

/// Whether `c` stands at or past the end of `src`.
pub open spec fn at_end(src: Seq<char>, c: Cursor) -> bool {
    c.index >= src.len()
}

/// How many characters of `src` lie at or after `c`.
pub open spec fn left(src: Seq<char>, c: Cursor) -> nat {
    if c.index < src.len() {
        (src.len() - c.index) as nat
    } else {
        0
    }
}

/// `index` brought into the range of `src`.
pub open spec fn clip(src: Seq<char>, index: int) -> int {
    if index < 0 {
        0
    } else if index > src.len() {
        src.len() as int
    } else {
        index
    }
}

/// An error at the character that `c` has just passed.
pub open spec fn behind(c: Cursor, msg: Seq<char>) -> ErrorView {
    ErrorView { msg, line: c.line, column: c.column - 1 }
}

/// An error at the character that `c` stands on.
pub open spec fn here(c: Cursor, msg: Seq<char>) -> ErrorView {
    ErrorView { msg, line: c.line, column: c.column }
}

/// A token of kind `kind` that begins at `start`.
pub open spec fn token_at(start: Cursor, kind: KindView) -> TokenView {
    TokenView { kind, line: start.line, column: start.column }
}

/// The cursor after the blanks that begin at `c`. A line feed begins a new
/// line; a space, a tab and a carriage return are one column each.
pub open spec fn skip_blanks(src: Seq<char>, c: Cursor) -> Cursor
    decreases left(src, c),
{
    if 0 <= c.index < src.len() && blank(src[c.index]) {
        if src[c.index] == '\n' {
            skip_blanks(src, c.next_line())
        } else {
            skip_blanks(src, c.step())
        }
    } else {
        c
    }
}

/// The cursor after the digits that begin at `c`.
pub open spec fn skip_digits(src: Seq<char>, c: Cursor) -> Cursor
    decreases left(src, c),
{
    if 0 <= c.index < src.len() && digit(src[c.index]) {
        skip_digits(src, c.step())
    } else {
        c
    }
}

/// The cursor after the letters that begin at `c`.
pub open spec fn skip_letters(src: Seq<char>, c: Cursor) -> Cursor
    decreases left(src, c),
{
    if 0 <= c.index < src.len() && letter(src[c.index]) {
        skip_letters(src, c.step())
    } else {
        c
    }
}

/// The four characters after `\u`, read as a hexadecimal number. The cursor
/// moves on by four in any case. Where the text ends before the fourth, or
/// one of the four is no hexadecimal digit, the escape is invalid; the
/// message shows the characters that were there.
pub open spec fn scan_hex4(src: Seq<char>, c: Cursor) -> Step<int> {
    let end = c.steps(4);
    let digits = src.subrange(clip(src, c.index), clip(src, c.index + 4));
    if digits.len() == 4 && all_hex(digits) {
        Step { outcome: Ok(hex_value(digits)), cursor: end }
    } else {
        Step { outcome: Err(behind(end, invalid_hex_text(digits))), cursor: end }
    }
}

/// The character that a `\u` escape stands for; `c` is the cursor after
/// the `u`. The first half of a surrogate pair must be followed at once by
/// a second `\u` escape that holds the other half.
pub open spec fn scan_unicode(src: Seq<char>, c: Cursor) -> Step<char> {
    let first = scan_hex4(src, c);
    match first.outcome {
        Err(e) => Step { outcome: Err(e), cursor: first.cursor },
        Ok(code) => {
            let c1 = first.cursor;
            if high_surrogate(code) {
                if char_at(src, c1.index) != '\\' {
                    Step { outcome: Err(here(c1, unfinished_character_text(code))), cursor: c1 }
                } else if char_at(src, c1.index + 1) != 'u' {
                    Step {
                        outcome: Err(here(c1.step(), unfinished_character_text(code))),
                        cursor: c1.step(),
                    }
                } else {
                    let second = scan_hex4(src, c1.steps(2));
                    match second.outcome {
                        Err(e) => Step { outcome: Err(e), cursor: second.cursor },
                        Ok(code2) => if low_surrogate(code2) {
                            Step {
                                outcome: Ok(pair_code(code, code2) as char),
                                cursor: second.cursor,
                            }
                        } else {
                            Step {
                                outcome: Err(
                                    behind(second.cursor, invalid_pair_text(code, code2)),
                                ),
                                cursor: second.cursor,
                            }
                        },
                    }
                }
            } else if low_surrogate(code) {
                Step { outcome: Err(behind(c1, invalid_character_text(code))), cursor: c1 }
            } else {
                Step { outcome: Ok(code as char), cursor: c1 }
            }
        },
    }
}

/// The character that an escape sequence stands for; `c` is the cursor
/// after the backslash. A backslash before a space, or at the very end of
/// the text, is a lone backslash; before any other character that begins no
/// escape sequence it is an invalid escape.
pub open spec fn scan_escape(src: Seq<char>, c: Cursor) -> Step<char> {
    let x = char_at(src, c.index);
    let c1 = c.step();
    if x == '"' {
        Step { outcome: Ok('"'), cursor: c1 }
    } else if x == '\\' {
        Step { outcome: Ok('\\'), cursor: c1 }
    } else if x == '/' {
        Step { outcome: Ok('/'), cursor: c1 }
    } else if x == 'b' {
        Step { outcome: Ok('\x08'), cursor: c1 }
    } else if x == 'f' {
        Step { outcome: Ok('\x0C'), cursor: c1 }
    } else if x == 'n' {
        Step { outcome: Ok('\n'), cursor: c1 }
    } else if x == 'r' {
        Step { outcome: Ok('\r'), cursor: c1 }
    } else if x == 't' {
        Step { outcome: Ok('\t'), cursor: c1 }
    } else if x == 'u' {
        scan_unicode(src, c1)
    } else if x == ' ' || at_end(src, c) {
        Step { outcome: Err(behind(c1, lone_backslash_text())), cursor: c1 }
    } else {
        Step { outcome: Err(behind(c1, invalid_escape_text(x))), cursor: c1 }
    }
}

/// The rest of a string token: `c` is the cursor inside the string and
/// `text` is what has been decoded of it so far.
pub open spec fn scan_string(src: Seq<char>, c: Cursor, text: Seq<char>) -> Step<Seq<char>>
    decreases left(src, c),
{
    if at_end(src, c) || c.index < 0 {
        Step { outcome: Err(behind(c, unterminated_string_text())), cursor: c }
    } else if src[c.index] == '"' {
        Step { outcome: Ok(text), cursor: c.step() }
    } else if src[c.index] == '\\' {
        let escape = scan_escape(src, c.step());
        match escape.outcome {
            Err(e) => Step { outcome: Err(e), cursor: escape.cursor },
            Ok(ch) => scan_string(src, escape.cursor, text.push(ch)),
        }
    } else if forbidden(src[c.index]) {
        Step { outcome: Err(behind(c.step(), string_error_text(src[c.index]))), cursor: c.step() }
    } else {
        scan_string(src, c.step(), text.push(src[c.index]))
    }
}

/// The end of the integer part of a number whose first character, `first`,
/// ends just before `c`: a minus sign must be followed by a digit.
pub open spec fn scan_integer(src: Seq<char>, first: char, c: Cursor) -> Step<()> {
    if first == '-' {
        if digit(char_at(src, c.index)) {
            Step { outcome: Ok(()), cursor: skip_digits(src, c.step()) }
        } else {
            Step { outcome: Err(behind(c.step(), digit_after_minus_text())), cursor: c.step() }
        }
    } else {
        Step { outcome: Ok(()), cursor: skip_digits(src, c) }
    }
}

/// The end of the fraction that may begin at `c`: a dot and at least one
/// digit.
pub open spec fn scan_fraction(src: Seq<char>, c: Cursor) -> Step<()> {
    if char_at(src, c.index) == '.' {
        if digit(char_at(src, c.index + 1)) {
            Step { outcome: Ok(()), cursor: skip_digits(src, c.steps(2)) }
        } else {
            Step { outcome: Err(behind(c.steps(2), digit_after_dot_text())), cursor: c.steps(2) }
        }
    } else {
        Step { outcome: Ok(()), cursor: c }
    }
}

/// The cursor after the sign that may follow the `e` of an exponent.
pub open spec fn skip_sign(src: Seq<char>, c: Cursor) -> Cursor {
    if char_at(src, c.index) == '-' || char_at(src, c.index) == '+' {
        c.step()
    } else {
        c
    }
}

/// The end of the exponent that may begin at `c`: `e` or `E`, an optional
/// sign and at least one digit.
pub open spec fn scan_exponent(src: Seq<char>, c: Cursor) -> Step<()> {
    if char_at(src, c.index) == 'e' || char_at(src, c.index) == 'E' {
        let c1 = skip_sign(src, c.step());
        if digit(char_at(src, c1.index)) {
            Step { outcome: Ok(()), cursor: skip_digits(src, c1.step()) }
        } else {
            Step { outcome: Err(behind(c1.step(), digit_after_exponent_text())), cursor: c1.step() }
        }
    } else {
        Step { outcome: Ok(()), cursor: c }
    }
}

/// A number token that begins at `start`: an integer part, then a fraction
/// and an exponent where there are any. The token carries the literal as
/// the text has it.
pub open spec fn scan_number(src: Seq<char>, start: Cursor) -> Step<TokenView> {
    let integer = scan_integer(src, char_at(src, start.index), start.step());
    match integer.outcome {
        Err(e) => Step { outcome: Err(e), cursor: integer.cursor },
        Ok(_) => {
            let fraction = scan_fraction(src, integer.cursor);
            match fraction.outcome {
                Err(e) => Step { outcome: Err(e), cursor: fraction.cursor },
                Ok(_) => {
                    let exponent = scan_exponent(src, fraction.cursor);
                    match exponent.outcome {
                        Err(e) => Step { outcome: Err(e), cursor: exponent.cursor },
                        Ok(_) => Step {
                            outcome: Ok(
                                token_at(
                                    start,
                                    KindView::Number(
                                        src.subrange(
                                            clip(src, start.index),
                                            clip(src, exponent.cursor.index),
                                        ),
                                    ),
                                ),
                            ),
                            cursor: exponent.cursor,
                        },
                    }
                },
            }
        },
    }
}

/// A keyword token that begins at `start`: the run of letters there must
/// spell `true`, `false` or `null`.
pub open spec fn scan_keyword(src: Seq<char>, start: Cursor) -> Step<TokenView> {
    let end = skip_letters(src, start.step());
    let word = src.subrange(clip(src, start.index), clip(src, end.index));
    if word == "true"@ {
        Step { outcome: Ok(token_at(start, KindView::True)), cursor: end }
    } else if word == "false"@ {
        Step { outcome: Ok(token_at(start, KindView::False)), cursor: end }
    } else if word == "null"@ {
        Step { outcome: Ok(token_at(start, KindView::Null)), cursor: end }
    } else {
        Step { outcome: Err(here(start, unknown_keyword_text(word))), cursor: end }
    }
}

/// The token of one character that `x` is, if it is one.
pub open spec fn punctuation(x: char) -> Option<KindView> {
    if x == '{' {
        Some(KindView::LeftBrace)
    } else if x == '}' {
        Some(KindView::RightBrace)
    } else if x == '[' {
        Some(KindView::LeftBracket)
    } else if x == ']' {
        Some(KindView::RightBracket)
    } else if x == ',' {
        Some(KindView::Comma)
    } else if x == ':' {
        Some(KindView::Colon)
    } else {
        None
    }
}

/// The token that begins at `start`, which stands on a character that is
/// no blank.
#[verifier::opaque]
pub open spec fn scan_from(src: Seq<char>, start: Cursor) -> Step<TokenView> {
    let x = char_at(src, start.index);
    if at_end(src, start) {
        Step { outcome: Ok(token_at(start, KindView::Eof)), cursor: start }
    } else if punctuation(x) is Some {
        Step { outcome: Ok(token_at(start, punctuation(x)->0)), cursor: start.step() }
    } else if x == '"' {
        let body = scan_string(src, start.step(), Seq::empty());
        match body.outcome {
            Err(e) => Step { outcome: Err(e), cursor: body.cursor },
            Ok(text) => Step {
                outcome: Ok(token_at(start, KindView::String(text))),
                cursor: body.cursor,
            },
        }
    } else if letter(x) {
        scan_keyword(src, start)
    } else if number_start(x) {
        scan_number(src, start)
    } else {
        Step {
            outcome: Err(behind(start.step(), unexpected_character_text(x))),
            cursor: start.step(),
        }
    }
}

/// The next token of `src` at or after `c`: blanks are passed over, then
/// one token is read. At the end of the text the token is the end marker.
#[verifier::opaque]
pub open spec fn scan_token(src: Seq<char>, c: Cursor) -> Step<TokenView> {
    scan_from(src, skip_blanks(src, c))
}

} // verus!
