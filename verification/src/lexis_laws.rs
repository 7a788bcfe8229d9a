//! Laws of scanning: what holds of every text and every cursor, proved from
//! the definitions of [`crate::lexis`].
use vstd::prelude::*;
use crate::chars::{
    blank, digit, forbidden, letter, number_literal, number_parts, number_start,
};
use crate::lexis::{
    at_end, char_at, left, punctuation, scan_escape, scan_exponent, scan_fraction, scan_from,
    scan_integer, scan_number, scan_string, scan_token, skip_blanks, skip_digits, skip_letters,
    skip_sign, Cursor,
};
use crate::messages::{hex_text, not_allowed_text, string_error_text};

verus! {

/// Passing over blanks never moves the cursor back, and leaves it on a
/// character that is no blank, or at the end of the text.
proof fn lemma_skip_blanks(src: Seq<char>, c: Cursor)
    ensures
        skip_blanks(src, c).index >= c.index,
        c.index <= src.len() ==> skip_blanks(src, c).index <= src.len(),
        skip_blanks(src, skip_blanks(src, c)) == skip_blanks(src, c),
        !blank(char_at(src, skip_blanks(src, c).index)),
    decreases left(src, c),
{
    if 0 <= c.index < src.len() && blank(src[c.index]) {
        if src[c.index] == '\n' {
            lemma_skip_blanks(src, c.next_line());
        } else {
            lemma_skip_blanks(src, c.step());
        }
    }
}

/// Passing over digits never moves the cursor back, nor past the end of the
/// text, nor to another line.
proof fn lemma_skip_digits(src: Seq<char>, c: Cursor)
    ensures
        skip_digits(src, c).index >= c.index,
        c.index <= src.len() ==> skip_digits(src, c).index <= src.len(),
        skip_digits(src, c).line == c.line,
        skip_digits(src, c).column - c.column == skip_digits(src, c).index - c.index,
        forall|i: int| c.index <= i < skip_digits(src, c).index ==> digit(#[trigger] src[i]),
        !digit(char_at(src, skip_digits(src, c).index)),
    decreases left(src, c),
{
    if 0 <= c.index < src.len() && digit(src[c.index]) {
        lemma_skip_digits(src, c.step());
    }
}

/// Passing over letters never moves the cursor back, nor past the end of
/// the text, nor to another line.
proof fn lemma_skip_letters(src: Seq<char>, c: Cursor)
    ensures
        skip_letters(src, c).index >= c.index,
        c.index <= src.len() ==> skip_letters(src, c).index <= src.len(),
        skip_letters(src, c).line == c.line,
    decreases left(src, c),
{
    if 0 <= c.index < src.len() && letter(src[c.index]) {
        lemma_skip_letters(src, c.step());
    }
}

/// Scanning a string never moves the cursor back; where it succeeds, it has
/// passed the closing quote.
proof fn lemma_scan_string(src: Seq<char>, c: Cursor, text: Seq<char>)
    ensures
        scan_string(src, c, text).cursor.index >= c.index,
        scan_string(src, c, text).outcome is Ok ==> c.index < scan_string(
            src,
            c,
            text,
        ).cursor.index <= src.len(),
    decreases left(src, c),
{
    if at_end(src, c) || c.index < 0 {
    } else if src[c.index] == '"' {
    } else if src[c.index] == '\\' {
        let escape = scan_escape(src, c.step());
        match escape.outcome {
            Err(e) => {},
            Ok(ch) => {
                lemma_scan_string(src, escape.cursor, text.push(ch));
            },
        }
    } else if forbidden(src[c.index]) {
    } else {
        lemma_scan_string(src, c.step(), text.push(src[c.index]));
    }
}

/// Scanning a token never moves the cursor back. A token other than the end
/// marker takes at least one character of the text, and the end marker is
/// only given at the end of the text.
pub proof fn lemma_scan_token(src: Seq<char>, c: Cursor)
    ensures
        scan_token(src, c).cursor.index >= c.index,
        left(src, scan_token(src, c).cursor) <= left(src, c),
        match scan_token(src, c).outcome {
            Ok(token) => if token.kind is Eof {
                at_end(src, scan_token(src, c).cursor)
            } else {
                &&& c.index < src.len()
                &&& c.index < scan_token(src, c).cursor.index <= src.len()
                &&& left(src, scan_token(src, c).cursor) < left(src, c)
            },
            Err(_) => true,
        },
{
    reveal(scan_token);
    reveal(scan_from);
    let start = skip_blanks(src, c);
    lemma_skip_blanks(src, c);
    let x = char_at(src, start.index);
    if at_end(src, start) {
    } else if punctuation(x) is Some {
    } else if x == '"' {
        lemma_scan_string(src, start.step(), Seq::empty());
    } else if letter(x) {
        lemma_skip_letters(src, start.step());
    } else if number_start(x) {
        let integer = scan_integer(src, x, start.step());
        lemma_skip_digits(src, start.step());
        lemma_skip_digits(src, start.steps(2));
        if integer.outcome is Ok {
            let fraction = scan_fraction(src, integer.cursor);
            lemma_skip_digits(src, integer.cursor.steps(2));
            if fraction.outcome is Ok {
                let after_e = skip_sign(src, fraction.cursor.step());
                lemma_skip_digits(src, after_e.step());
            }
        }
    } else {
    }
}

/// A number token carries a number literal. Where scanning gives a number,
/// what the token carries is an optional minus sign, digits, an optional
/// fraction and an optional exponent, and nothing else.
pub proof fn law_number_token_is_literal(src: Seq<char>, c: Cursor)
    ensures
        match scan_token(src, c).outcome {
            Ok(token) => token.kind is Number ==> number_literal(token.kind->Number_0),
            Err(_) => true,
        },
{
    reveal(scan_token);
    reveal(scan_from);
    let start = skip_blanks(src, c);
    lemma_skip_blanks(src, c);
    let x = char_at(src, start.index);
    if at_end(src, start) {
    } else if punctuation(x) is Some {
    } else if x == '"' {
    } else if letter(x) {
    } else if number_start(x) {
        if start.index >= 0 {
            lemma_number_is_literal(src, start);
        }
    } else {
    }
}

/// The literal of a number that scanning accepts has the parts of a number
/// literal.
proof fn lemma_number_is_literal(src: Seq<char>, start: Cursor)
    requires
        0 <= start.index < src.len(),
        number_start(src[start.index]),
    ensures
        match scan_number(src, start).outcome {
            Ok(token) => token.kind is Number && number_literal(token.kind->Number_0),
            Err(_) => true,
        },
{
    let first = src[start.index];
    let i0 = start.index;
    let integer = scan_integer(src, first, start.step());
    lemma_skip_digits(src, start.step());
    lemma_skip_digits(src, start.steps(2));
    if integer.outcome is Ok {
        let b = integer.cursor.index;
        let fraction = scan_fraction(src, integer.cursor);
        lemma_skip_digits(src, integer.cursor.steps(2));
        if fraction.outcome is Ok {
            let c = fraction.cursor.index;
            let exponent = scan_exponent(src, fraction.cursor);
            let after_sign = skip_sign(src, fraction.cursor.step());
            lemma_skip_digits(src, after_sign.step());
            if exponent.outcome is Ok {
                let e = exponent.cursor.index;
                let literal = src.subrange(i0, e);
                let a = if first == '-' {
                    1int
                } else {
                    0int
                };
                let d = if c == e {
                    c
                } else {
                    after_sign.index
                };
                assert(i0 < b <= c <= e <= src.len());
                assert forall|i: int| 0 <= i < literal.len() implies literal[i] == src[i0 + i] by {}
                assert(number_parts(literal, a, b - i0, c - i0, d - i0)) by {
                    assert forall|i: int| a <= i < b - i0 implies digit(#[trigger] literal[i]) by {
                        assert(literal[i] == src[i0 + i]);
                    }
                    if c != b {
                        assert forall|i: int| b - i0 + 1 <= i < c - i0 implies digit(
                            #[trigger] literal[i],
                        ) by {
                            assert(literal[i] == src[i0 + i]);
                        }
                    }
                    if c != e {
                        assert forall|i: int| d - i0 <= i < literal.len() implies digit(
                            #[trigger] literal[i],
                        ) by {
                            assert(literal[i] == src[i0 + i]);
                        }
                    }
                }
            }
        }
    }
}

/// Whether `phrase` occurs in `text`.
pub open spec fn contains(text: Seq<char>, phrase: Seq<char>) -> bool {
    exists|i: int|
        0 <= i && i + phrase.len() <= text.len() && #[trigger] text.subrange(
            i,
            i + phrase.len(),
        ) == phrase
}

/// A text that is put together from three parts contains the middle one.
proof fn lemma_contains_middle(before: Seq<char>, phrase: Seq<char>, after: Seq<char>)
    ensures
        contains(before + phrase + after, phrase),
{
    let text = before + phrase + after;
    let i = before.len() as int;
    assert(text.subrange(i, i + phrase.len()) =~= phrase);
}

/// The end marker repeats. Where scanning from `c` gives the end marker,
/// scanning again from where that call stopped gives the same end marker,
/// at the same position, and the cursor does not move any more.
pub proof fn law_end_marker_repeats(src: Seq<char>, c: Cursor)
    requires
        scan_token(src, c).outcome is Ok,
        scan_token(src, c).outcome->Ok_0.kind is Eof,
    ensures
        scan_token(src, scan_token(src, c).cursor) == scan_token(src, c),
        scan_token(src, c).cursor == skip_blanks(src, c),
{
    reveal(scan_token);
    reveal(scan_from);
    lemma_skip_blanks(src, c);
    let start = skip_blanks(src, c);
    assert(at_end(src, start)) by {
        if !at_end(src, start) {
            let step = scan_from(src, start);
            assert(!(step.outcome is Ok && step.outcome->Ok_0.kind is Eof));
        }
    }
    assert(skip_blanks(src, start) == start);
}

/// What is said of any raw control character contains the words "not
/// allowed inside a string".
proof fn lemma_string_error_text(ch: char)
    ensures
        contains(string_error_text(ch), not_allowed_text()),
        not_allowed_text() == "not allowed inside a string"@,
{
    if ch == '\n' {
        lemma_contains_middle(
            "Line breaks are "@,
            not_allowed_text(),
            " (hint: you can escape them as \\n)"@,
        );
    } else if ch == '\t' {
        lemma_contains_middle(
            "Literal tabs are "@,
            not_allowed_text(),
            " (hint: you can escape them as \\t)"@,
        );
    } else if ch == '\r' {
        lemma_contains_middle(
            "Carriage return line breaks are "@,
            not_allowed_text(),
            " (hint: you can escape them as \\r)"@,
        );
    } else if ch == '\x08' {
        lemma_contains_middle(
            "Backspace control characters are "@,
            not_allowed_text(),
            " (hint: you can escape them as \\b)"@,
        );
    } else if ch == '\x0C' {
        lemma_contains_middle(
            "Form-feed control characters are "@,
            not_allowed_text(),
            " (hint: you can escape them as \\f)"@,
        );
    } else {
        let hex = hex_text(ch as int);
        let before = "The control character U+"@ + hex + " is "@;
        let after = " (hint: you can escape it as \\u"@ + hex;
        lemma_contains_middle(before, not_allowed_text(), after);
        assert(string_error_text(ch) =~= before + not_allowed_text() + after);
    }
}

/// A raw control character ends a string with an error. Wherever string
/// scanning comes to stand on a character below U+0020, whatever it has
/// decoded before, it fails at that character with a message that contains
/// "not allowed inside a string".
pub proof fn law_control_character_ends_string(src: Seq<char>, c: Cursor, text: Seq<char>)
    requires
        0 <= c.index < src.len(),
        (src[c.index] as int) < 0x20,
    ensures
        scan_string(src, c, text).outcome is Err,
        contains(scan_string(src, c, text).outcome->Err_0.msg, "not allowed inside a string"@),
        scan_string(src, c, text).outcome->Err_0.line == c.line,
        scan_string(src, c, text).outcome->Err_0.column == c.column,
{
    lemma_string_error_text(src[c.index]);
}

/// Scanning a string passes over characters that need no escape one by
/// one.
pub proof fn lemma_plain_run(src: Seq<char>, c: Cursor, text: Seq<char>, k: int)
    requires
        0 <= c.index,
        k >= 0,
        c.index + k <= src.len(),
        forall|i: int| c.index <= i < c.index + k ==> !forbidden(#[trigger] src[i]),
    ensures
        scan_string(src, c, text) == scan_string(
            src,
            c.steps(k),
            text + src.subrange(c.index, c.index + k),
        ),
    decreases k,
{
    if k == 0 {
        assert(text + src.subrange(c.index, c.index + k) =~= text);
    } else {
        assert(!forbidden(src[c.index]));
        lemma_plain_run(src, c.step(), text.push(src[c.index]), k - 1);
        assert(text.push(src[c.index]) + src.subrange(c.index + 1, c.index + k) =~= text
            + src.subrange(c.index, c.index + k));
    }
}

/// A string stops at a raw control character. Where the text after the
/// opening quote runs over `k` characters that need no escape to a character
/// below U+0020, scanning the string is an error at that character, on the
/// line of the quote, with a message that contains "not allowed inside a
/// string"; no string comes of it.
pub proof fn law_string_rejects_raw_control_character(src: Seq<char>, c: Cursor, k: int)
    requires
        0 <= c.index,
        0 <= k,
        c.index + k < src.len(),
        forall|i: int| c.index <= i < c.index + k ==> !forbidden(#[trigger] src[i]),
        (src[c.index + k] as int) < 0x20,
    ensures
        scan_string(src, c, Seq::empty()).outcome is Err,
        contains(
            scan_string(src, c, Seq::empty()).outcome->Err_0.msg,
            "not allowed inside a string"@,
        ),
        scan_string(src, c, Seq::empty()).outcome->Err_0.line == c.line,
        scan_string(src, c, Seq::empty()).outcome->Err_0.column == c.column + k,
{
    lemma_plain_run(src, c, Seq::empty(), k);
    law_control_character_ends_string(
        src,
        c.steps(k),
        Seq::empty() + src.subrange(c.index, c.index + k),
    );
}

/// Raw control characters are forbidden inside strings. A token that opens
/// with a quote at `start` and runs over `k - 1` characters that need no
/// escape to a character below U+0020 is an error at that character, with a
/// message that contains "not allowed inside a string".
pub proof fn law_raw_control_character_rejected(src: Seq<char>, start: Cursor, k: int)
    requires
        0 <= start.index,
        1 <= k,
        start.index + k < src.len(),
        src[start.index] == '"',
        forall|i: int| start.index < i < start.index + k ==> !forbidden(#[trigger] src[i]),
        (src[start.index + k] as int) < 0x20,
    ensures
        scan_token(src, start).outcome is Err,
        contains(scan_token(src, start).outcome->Err_0.msg, "not allowed inside a string"@),
        scan_token(src, start).outcome->Err_0.line == start.line,
        scan_token(src, start).outcome->Err_0.column == start.column + k,
{
    reveal(scan_token);
    reveal(scan_from);
    assert(skip_blanks(src, start) == start);
    law_string_rejects_raw_control_character(src, start.step(), k - 1);
}

/// Passing over blanks goes forward in the text: to the same line and no
/// earlier column, or to a later line.
proof fn lemma_skip_blanks_position(src: Seq<char>, c: Cursor)
    requires
        0 <= c.column,
    ensures
        skip_blanks(src, c).line >= c.line,
        skip_blanks(src, c).column >= 0,
        skip_blanks(src, c).line == c.line ==> skip_blanks(src, c).column >= c.column,
    decreases left(src, c),
{
    if 0 <= c.index < src.len() && blank(src[c.index]) {
        if src[c.index] == '\n' {
            lemma_skip_blanks_position(src, c.next_line());
        } else {
            lemma_skip_blanks_position(src, c.step());
        }
    }
}

/// Passing over letters stays on the line and goes to no earlier column.
proof fn lemma_skip_letters_position(src: Seq<char>, c: Cursor)
    ensures
        skip_letters(src, c).line == c.line,
        skip_letters(src, c).column >= c.column,
    decreases left(src, c),
{
    if 0 <= c.index < src.len() && letter(src[c.index]) {
        lemma_skip_letters_position(src, c.step());
    }
}

/// Scanning a string stays on the line and goes to no earlier column; an
/// error in it lies no further back than the character before the cursor.
proof fn lemma_scan_string_position(src: Seq<char>, c: Cursor, text: Seq<char>)
    ensures
        scan_string(src, c, text).cursor.line == c.line,
        scan_string(src, c, text).cursor.column >= c.column,
        match scan_string(src, c, text).outcome {
            Ok(_) => true,
            Err(e) => e.line == c.line && e.column >= c.column - 1,
        },
    decreases left(src, c),
{
    if at_end(src, c) || c.index < 0 {
    } else if src[c.index] == '"' {
    } else if src[c.index] == '\\' {
        let escape = scan_escape(src, c.step());
        match escape.outcome {
            Err(e) => {},
            Ok(ch) => {
                lemma_scan_string_position(src, escape.cursor, text.push(ch));
            },
        }
    } else if forbidden(src[c.index]) {
    } else {
        lemma_scan_string_position(src, c.step(), text.push(src[c.index]));
    }
}

/// Positions go forward. A token, or an error, that scanning from `c` gives
/// lies on the line of `c` and at no earlier column, or on a later line;
/// its line is at least 1 and its column at least 0 where those of `c` are.
/// A token lies on one line, and scanning stops behind it.
pub proof fn law_positions_go_forward(src: Seq<char>, c: Cursor)
    requires
        1 <= c.line,
        0 <= c.column,
    ensures
        scan_token(src, c).cursor.line >= c.line,
        scan_token(src, c).cursor.column >= 0,
        match scan_token(src, c).outcome {
            Ok(token) => {
                &&& token.line >= c.line
                &&& token.column >= 0
                &&& token.line == c.line ==> token.column >= c.column
                &&& scan_token(src, c).cursor.line == token.line
                &&& scan_token(src, c).cursor.column >= token.column
                &&& !(token.kind is Eof) ==> scan_token(src, c).cursor.column > token.column
            },
            Err(e) => {
                &&& e.line >= c.line
                &&& e.column >= 0
                &&& e.line == c.line ==> e.column >= c.column
                &&& scan_token(src, c).cursor.line == e.line
            },
        },
{
    reveal(scan_token);
    reveal(scan_from);
    let start = skip_blanks(src, c);
    lemma_skip_blanks(src, c);
    lemma_skip_blanks_position(src, c);
    let x = char_at(src, start.index);
    if at_end(src, start) {
    } else if punctuation(x) is Some {
    } else if x == '"' {
        lemma_scan_string_position(src, start.step(), Seq::empty());
    } else if letter(x) {
        lemma_skip_letters_position(src, start.step());
    } else if number_start(x) {
        let integer = scan_integer(src, x, start.step());
        lemma_skip_digits(src, start.step());
        lemma_skip_digits(src, start.steps(2));
        if integer.outcome is Ok {
            let fraction = scan_fraction(src, integer.cursor);
            lemma_skip_digits(src, integer.cursor.steps(2));
            if fraction.outcome is Ok {
                let after_e = skip_sign(src, fraction.cursor.step());
                lemma_skip_digits(src, after_e.step());
            }
        }
    } else {
    }
}

} // verus!
