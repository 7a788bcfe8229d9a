//! The scanner: it holds a text and a cursor and hands out one token at a
//! time. What each call returns is given by the functions of
//! [`crate::lexis`].
use vstd::prelude::*;
use vstd::slice::slice_subrange;
use crate::chars::{
    hex_number, is_forbidden_char, is_hex, is_high_surrogate, is_letter, is_low_surrogate,
    is_number, is_number_start,
};
use crate::data::{ErrorView, JsonToken, ParseError, TokenKind, TokenPosition, TokenView};
use crate::lexis::{
    at_end, char_at, left, scan_escape, scan_exponent, scan_fraction, scan_from, scan_hex4,
    scan_integer,
    scan_keyword, scan_number, scan_string, scan_token, scan_unicode, skip_blanks, skip_digits,
    skip_letters, skip_sign, Cursor,
};
use crate::lexis_laws::law_positions_go_forward;
use crate::messages::{
    digit_after_dot, digit_after_exponent, digit_after_minus, invalid_character, invalid_escape,
    invalid_hex, invalid_pair, lone_backslash, push_chars, string_error_msg, unexpected_character,
    unfinished_character, unknown_keyword, unterminated_string,
};

verus! {

/// How many characters U+0000 follow the text in the scanner's buffer.
pub const PADDING: usize = 8;

/// How far past the end of the text the cursor may come to stand.
pub const OVERRUN: usize = 4;

/// A scanner over one text.
pub struct Scanner {
    /// The characters of the text, followed by `PADDING` characters
    /// U+0000: what is read past the end of the text.
    chars: Vec<char>,
    /// The number of characters of the text.
    len: usize,
    /// The index of the next character.
    index: usize,
    /// Line and column of the next character.
    position: TokenPosition,
}

/// What a scanning call returned, as plain values.
pub open spec fn token_outcome(r: Result<JsonToken, ParseError>) -> Result<TokenView, ErrorView> {
    match r {
        Ok(token) => Ok(token@),
        Err(e) => Err(e@),
    }
}

/// Whether `text` and `word` hold the same characters.
pub(crate) fn same_text(text: &[char], word: &str) -> (same: bool)
    ensures
        same == (text@ == word@),
{
    if word.unicode_len() != text.len() {
        return false;
    }
    let mut i: usize = 0;
    while i < text.len()
        invariant
            i <= text.len(),
            word@.len() == text@.len(),
            forall|k: int| 0 <= k < i ==> text@[k] == #[trigger] word@[k],
        decreases text.len() - i,
    {
        if text[i] != word.get_char(i) {
            return false;
        }
        i += 1;
    }
    assert(text@ =~= word@);
    true
}

impl Scanner {
    /// The text that is scanned.
    pub closed spec fn source(&self) -> Seq<char> {
        self.chars@.subrange(0, self.len as int)
    }

    /// Where the scanner stands in its text.
    pub closed spec fn cursor(&self) -> Cursor {
        Cursor {
            index: self.index as int,
            line: self.position.line as int,
            column: self.position.column as int,
        }
    }

    /// The invariant of the scanner: the buffer is the text and its padding,
    /// the cursor stands at most `OVERRUN` characters past the end, and line
    /// and column are no larger than the characters passed allow.
    pub closed spec fn wf(&self) -> bool {
        &&& self.chars@.len() == self.len + PADDING
        &&& self.len + PADDING <= usize::MAX
        &&& forall|i: int| self.len <= i < self.chars@.len() ==> self.chars@[i] == '\0'
        &&& self.index <= self.len + OVERRUN
        &&& self.position.column <= self.index
        &&& 1 <= self.position.line <= self.index + 1
    }

    /// Whether the cursor stands inside the text or at its end.
    pub open spec fn within(&self) -> bool {
        self.cursor().index <= self.source().len()
    }

    /// What the invariant says of the cursor: it stands at or after the
    /// beginning of the text and at most `OVERRUN` characters past its end,
    /// its line is at least 1, and neither its line nor its column counts
    /// more than the characters that were passed.
    pub proof fn lemma_cursor_bounds(&self)
        requires
            self.wf(),
        ensures
            0 <= self.cursor().index <= self.source().len() + OVERRUN,
            0 <= self.cursor().column <= self.cursor().index,
            1 <= self.cursor().line <= self.cursor().index + 1,
    {
    }

    /// A scanner at the beginning of `source`.
    pub fn new(source: &str) -> (scanner: Self)
        ensures
            scanner.wf(),
            scanner.source() == source@,
            scanner.cursor() == Cursor::start(),
    {
        let mut chars: Vec<char> = Vec::new();
        for c in it: source.chars()
            invariant
                it.seq() == source@,
                chars@ == it.seq().subrange(0, it.index()),
        {
            chars.push(c);
        }
        assert(chars@ =~= source@);
        let len = chars.len();
        let mut k: usize = 0;
        while k < PADDING
            invariant
                k <= PADDING,
                chars@.len() == len + k,
                chars@.subrange(0, len as int) == source@,
                forall|i: int| len <= i < chars@.len() ==> chars@[i] == '\0',
            decreases PADDING - k,
        {
            chars.push('\0');
            k += 1;
            assert(chars@.subrange(0, len as int) =~= source@);
        }
        assert(chars@.len() == chars.len());
        Scanner { chars, len, index: 0, position: TokenPosition { line: 1, column: 0 } }
    }

    /// The next token of the text, or the error that scanning it met. At the
    /// end of the text the token is the end marker, however often this is
    /// called.
    pub fn next_token(&mut self) -> (r: Result<JsonToken, ParseError>)
        requires
            old(self).wf(),
        ensures
            final(self).wf(),
            final(self).source() == old(self).source(),
            final(self).cursor() == scan_token(old(self).source(), old(self).cursor()).cursor,
            token_outcome(r) == scan_token(old(self).source(), old(self).cursor()).outcome,
            match r {
                Ok(token) => token.pos.line >= 1,
                Err(e) => e.line >= 1,
            },
    {
        proof {
            reveal(scan_token);
            reveal(scan_from);
            law_positions_go_forward(self.source(), self.cursor());
        }
        self.skip_whitespace();
        let start = self.position;
        let from = self.index;

        if self.is_at_end() {
            return Ok(JsonToken { kind: TokenKind::Eof, pos: start });
        }
        let x = self.consume();
        if x == '{' {
            Ok(JsonToken { kind: TokenKind::LeftBrace, pos: start })
        } else if x == '}' {
            Ok(JsonToken { kind: TokenKind::RightBrace, pos: start })
        } else if x == '[' {
            Ok(JsonToken { kind: TokenKind::LeftBracket, pos: start })
        } else if x == ']' {
            Ok(JsonToken { kind: TokenKind::RightBracket, pos: start })
        } else if x == ',' {
            Ok(JsonToken { kind: TokenKind::Comma, pos: start })
        } else if x == ':' {
            Ok(JsonToken { kind: TokenKind::Colon, pos: start })
        } else if x == '"' {
            self.make_string(start)
        } else if is_letter(x) {
            self.make_keyword(start, from)
        } else if is_number_start(x) {
            self.make_number(start, from, x)
        } else {
            Err(self.make_error_behind(unexpected_character(x)))
        }
    }

    /// Scans the rest of a string whose opening quote has just been passed.
    pub(crate) fn make_string(&mut self, start: TokenPosition) -> (r: Result<JsonToken, ParseError>)
        requires
            old(self).wf(),
            old(self).within(),
            old(self).cursor().column >= 1,
            start.line == old(self).cursor().line,
        ensures
            final(self).wf(),
            final(self).source() == old(self).source(),
            final(self).cursor() == scan_string(
                old(self).source(),
                old(self).cursor(),
                Seq::empty(),
            ).cursor,
            match r {
                Ok(token) => {
                    &&& token.pos == start
                    &&& token.kind is String
                    &&& scan_string(old(self).source(), old(self).cursor(), Seq::empty()).outcome
                        == Ok::<Seq<char>, ErrorView>(token.kind->String_0@)
                },
                Err(e) => scan_string(old(self).source(), old(self).cursor(), Seq::empty()).outcome
                    == Err::<Seq<char>, ErrorView>(e@),
            },
    {
        let mut string = String::new();
        loop
            invariant
                self.wf(),
                self.source() == old(self).source(),
                self.cursor().column >= 1,
                self.cursor().line == start.line,
                scan_string(self.source(), self.cursor(), string@) == scan_string(
                    old(self).source(),
                    old(self).cursor(),
                    Seq::empty(),
                ),
            decreases left(self.source(), self.cursor()),
        {
            if self.is_at_end() {
                return Err(self.make_error_behind(unterminated_string()));
            }
            let x = self.consume();
            if x == '"' {
                return Ok(JsonToken { kind: TokenKind::String(string), pos: start });
            } else if x == '\\' {
                match self.parse_escape() {
                    Ok(ch) => {
                        string.push(ch);
                    },
                    Err(e) => {
                        return Err(e);
                    },
                }
            } else if is_forbidden_char(x) {
                let msg = string_error_msg(x);
                return Err(self.make_error_behind(msg));
            } else {
                string.push(x);
            }
        }
    }

    /// Decodes an escape sequence whose backslash has just been passed.
    pub(crate) fn parse_escape(&mut self) -> (r: Result<char, ParseError>)
        requires
            old(self).wf(),
            old(self).within(),
        ensures
            final(self).wf(),
            final(self).source() == old(self).source(),
            final(self).cursor() == scan_escape(old(self).source(), old(self).cursor()).cursor,
            final(self).cursor().line == old(self).cursor().line,
            final(self).cursor().index > old(self).cursor().index,
            match r {
                Ok(ch) => scan_escape(old(self).source(), old(self).cursor()).outcome == Ok::<
                    char,
                    ErrorView,
                >(ch),
                Err(e) => scan_escape(old(self).source(), old(self).cursor()).outcome == Err::<
                    char,
                    ErrorView,
                >(e@),
            },
    {
        let ended = self.is_at_end();
        let x = self.consume();
        if x == '"' {
            Ok('"')
        } else if x == '\\' {
            Ok('\\')
        } else if x == '/' {
            Ok('/')
        } else if x == 'b' {
            Ok('\x08')
        } else if x == 'f' {
            Ok('\x0C')
        } else if x == 'n' {
            Ok('\n')
        } else if x == 'r' {
            Ok('\r')
        } else if x == 't' {
            Ok('\t')
        } else if x == 'u' {
            self.parse_unicode_escape()
        } else {
            let msg = if x == ' ' || ended {
                lone_backslash()
            } else {
                invalid_escape(x)
            };
            Err(self.make_error_behind(msg))
        }
    }

    /// Decodes a `\u` escape whose `u` has just been passed.
    pub(crate) fn parse_unicode_escape(&mut self) -> (r: Result<char, ParseError>)
        requires
            old(self).wf(),
            old(self).within(),
        ensures
            final(self).wf(),
            final(self).source() == old(self).source(),
            final(self).cursor() == scan_unicode(old(self).source(), old(self).cursor()).cursor,
            final(self).cursor().line == old(self).cursor().line,
            final(self).cursor().index > old(self).cursor().index,
            match r {
                Ok(ch) => scan_unicode(old(self).source(), old(self).cursor()).outcome == Ok::<
                    char,
                    ErrorView,
                >(ch),
                Err(e) => scan_unicode(old(self).source(), old(self).cursor()).outcome == Err::<
                    char,
                    ErrorView,
                >(e@),
            },
    {
        let code = match self.parse_u16_encoded() {
            Ok(code) => code,
            Err(e) => {
                return Err(e);
            },
        };
        if is_high_surrogate(code) {
            if !self.matches('\\') {
                return Err(self.make_error_here(unfinished_character(code)));
            }
            if !self.matches('u') {
                return Err(self.make_error_here(unfinished_character(code)));
            }
            let code2 = match self.parse_u16_encoded() {
                Ok(code2) => code2,
                Err(e) => {
                    return Err(e);
                },
            };
            if is_low_surrogate(code2) {
                let high: u32 = (code - 0xD800) as u32;
                let low: u32 = (code2 - 0xDC00) as u32;
                let point: u32 = 0x10000 + high * 0x400 + low;
                match char::from_u32(point) {
                    Some(ch) => Ok(ch),
                    None => Err(self.make_error_behind(invalid_pair(code, code2))),
                }
            } else {
                Err(self.make_error_behind(invalid_pair(code, code2)))
            }
        } else {
            match char::from_u32(code as u32) {
                Some(ch) => Ok(ch),
                None => Err(self.make_error_behind(invalid_character(code))),
            }
        }
    }

    /// Reads the four hexadecimal digits of a `\u` escape.
    pub(crate) fn parse_u16_encoded(&mut self) -> (r: Result<u16, ParseError>)
        requires
            old(self).wf(),
            old(self).within(),
        ensures
            final(self).wf(),
            final(self).source() == old(self).source(),
            final(self).cursor() == old(self).cursor().steps(4),
            final(self).cursor() == scan_hex4(old(self).source(), old(self).cursor()).cursor,
            match r {
                Ok(code) => {
                    &&& scan_hex4(old(self).source(), old(self).cursor()).outcome == Ok::<
                        int,
                        ErrorView,
                    >(code as int)
                    &&& final(self).within()
                },
                Err(e) => scan_hex4(old(self).source(), old(self).cursor()).outcome == Err::<
                    int,
                    ErrorView,
                >(e@),
            },
    {
        let from = self.index;
        self.advance();
        self.advance();
        self.advance();
        self.advance();
        let to = if self.index < self.len {
            self.index
        } else {
            self.len
        };
        let digits = slice_subrange(self.chars.as_slice(), from, to);
        assert(digits@ =~= self.source().subrange(from as int, to as int));
        if digits.len() != 4 || !is_hex(digits) {
            Err(self.make_error_behind(invalid_hex(digits)))
        } else {
            Ok(hex_number(digits))
        }
    }

    /// Scans the rest of a number whose first character, `first`, has just
    /// been passed; the number begins at index `from`.
    pub(crate) fn make_number(&mut self, start: TokenPosition, from: usize, first: char) -> (r: Result<
        JsonToken,
        ParseError,
    >)
        requires
            old(self).wf(),
            old(self).within(),
            from + 1 == old(self).cursor().index,
            first == char_at(old(self).source(), from as int),
            number_start_at(old(self).source(), from as int),
            start.line == old(self).cursor().line,
            start.column + 1 == old(self).cursor().column,
        ensures
            final(self).wf(),
            final(self).source() == old(self).source(),
            final(self).cursor() == scan_number(
                old(self).source(),
                start_cursor(from, start),
            ).cursor,
            token_outcome(r) == scan_number(old(self).source(), start_cursor(from, start)).outcome,
    {
        match self.scan_integer(first) {
            Err(e) => {
                return Err(e);
            },
            Ok(_) => {},
        }
        match self.scan_fraction() {
            Err(e) => {
                return Err(e);
            },
            Ok(_) => {},
        }
        match self.scan_exponent() {
            Err(e) => {
                return Err(e);
            },
            Ok(_) => {},
        }
        let mut literal = String::new();
        let digits = slice_subrange(self.chars.as_slice(), from, self.index);
        assert(digits@ =~= self.source().subrange(from as int, self.index as int));
        push_chars(&mut literal, digits);
        assert(literal@ =~= digits@);
        Ok(JsonToken { kind: TokenKind::Number(literal), pos: start })
    }

    /// Scans the integer part of a number.
    pub(crate) fn scan_integer(&mut self, first: char) -> (r: Result<(), ParseError>)
        requires
            old(self).wf(),
            old(self).within(),
        ensures
            final(self).wf(),
            final(self).source() == old(self).source(),
            final(self).cursor() == scan_integer(
                old(self).source(),
                first,
                old(self).cursor(),
            ).cursor,
            final(self).cursor().index >= old(self).cursor().index,
            final(self).cursor().line == old(self).cursor().line,
            final(self).cursor().column >= old(self).cursor().column,
            match r {
                Ok(_) => {
                    &&& scan_integer(old(self).source(), first, old(self).cursor()).outcome is Ok
                    &&& final(self).within()
                },
                Err(e) => scan_integer(old(self).source(), first, old(self).cursor()).outcome
                    == Err::<(), ErrorView>(e@),
            },
    {
        if first == '-' {
            let d = self.consume();
            if !is_number(d) {
                return Err(self.make_error_behind(digit_after_minus()));
            }
        }
        self.skip_digits();
        Ok(())
    }

    /// Scans the fraction of a number, if it has one.
    pub(crate) fn scan_fraction(&mut self) -> (r: Result<(), ParseError>)
        requires
            old(self).wf(),
            old(self).within(),
        ensures
            final(self).wf(),
            final(self).source() == old(self).source(),
            final(self).cursor() == scan_fraction(old(self).source(), old(self).cursor()).cursor,
            final(self).cursor().index >= old(self).cursor().index,
            final(self).cursor().line == old(self).cursor().line,
            final(self).cursor().column >= old(self).cursor().column,
            match r {
                Ok(_) => {
                    &&& scan_fraction(old(self).source(), old(self).cursor()).outcome is Ok
                    &&& final(self).within()
                },
                Err(e) => scan_fraction(old(self).source(), old(self).cursor()).outcome == Err::<
                    (),
                    ErrorView,
                >(e@),
            },
    {
        if self.matches('.') {
            let d = self.consume();
            if !is_number(d) {
                return Err(self.make_error_behind(digit_after_dot()));
            }
            self.skip_digits();
        }
        Ok(())
    }

    /// Scans the exponent of a number, if it has one.
    pub(crate) fn scan_exponent(&mut self) -> (r: Result<(), ParseError>)
        requires
            old(self).wf(),
            old(self).within(),
        ensures
            final(self).wf(),
            final(self).source() == old(self).source(),
            final(self).cursor() == scan_exponent(old(self).source(), old(self).cursor()).cursor,
            final(self).cursor().index >= old(self).cursor().index,
            final(self).cursor().line == old(self).cursor().line,
            match r {
                Ok(_) => {
                    &&& scan_exponent(old(self).source(), old(self).cursor()).outcome is Ok
                    &&& final(self).within()
                },
                Err(e) => scan_exponent(old(self).source(), old(self).cursor()).outcome == Err::<
                    (),
                    ErrorView,
                >(e@),
            },
    {
        let e = self.peek();
        if e == 'e' || e == 'E' {
            self.advance();
            let sign = self.peek();
            if sign == '-' || sign == '+' {
                self.advance();
            }
            assert(self.cursor() == skip_sign(old(self).source(), old(self).cursor().step()));
            let d = self.consume();
            if !is_number(d) {
                return Err(self.make_error_behind(digit_after_exponent()));
            }
            self.skip_digits();
        }
        Ok(())
    }

    /// Scans the rest of a keyword whose first letter has just been passed;
    /// the keyword begins at index `from`.
    pub(crate) fn make_keyword(&mut self, start: TokenPosition, from: usize) -> (r: Result<
        JsonToken,
        ParseError,
    >)
        requires
            old(self).wf(),
            old(self).within(),
            from + 1 == old(self).cursor().index,
            start.line == old(self).cursor().line,
            start.column + 1 == old(self).cursor().column,
        ensures
            final(self).wf(),
            final(self).source() == old(self).source(),
            final(self).cursor() == scan_keyword(
                old(self).source(),
                start_cursor(from, start),
            ).cursor,
            token_outcome(r) == scan_keyword(old(self).source(), start_cursor(from, start)).outcome,
    {
        while is_letter(self.peek())
            invariant
                self.wf(),
                self.within(),
                self.source() == old(self).source(),
                from < self.cursor().index,
                skip_letters(self.source(), self.cursor()) == skip_letters(
                    old(self).source(),
                    old(self).cursor(),
                ),
            decreases left(self.source(), self.cursor()),
        {
            self.advance();
        }
        let word = slice_subrange(self.chars.as_slice(), from, self.index);
        assert(word@ =~= self.source().subrange(from as int, self.index as int));
        if same_text(word, "true") {
            Ok(JsonToken { kind: TokenKind::True, pos: start })
        } else if same_text(word, "false") {
            Ok(JsonToken { kind: TokenKind::False, pos: start })
        } else if same_text(word, "null") {
            Ok(JsonToken { kind: TokenKind::Null, pos: start })
        } else {
            Err(ParseError::new(unknown_keyword(word), start.line, start.column))
        }
    }

    /// An error at the character that the cursor stands on.
    pub(crate) fn make_error_here(&self, msg: String) -> (e: ParseError)
        requires
            self.wf(),
        ensures
            e@ == crate::lexis::here(self.cursor(), msg@),
    {
        ParseError::new(msg, self.position.line, self.position.column)
    }

    /// An error at the character that the cursor has just passed.
    pub(crate) fn make_error_behind(&self, msg: String) -> (e: ParseError)
        requires
            self.wf(),
            self.cursor().column >= 1,
        ensures
            e@ == crate::lexis::behind(self.cursor(), msg@),
    {
        ParseError::new(msg, self.position.line, self.position.column - 1)
    }

    /// Moves the cursor on by one character of the same line.
    pub(crate) fn advance(&mut self)
        requires
            old(self).wf(),
            old(self).cursor().index < old(self).source().len() + OVERRUN,
        ensures
            final(self).wf(),
            final(self).source() == old(self).source(),
            final(self).cursor() == old(self).cursor().step(),
    {
        self.index += 1;
        self.position.column += 1;
    }

    /// Moves the cursor over a line feed, to the beginning of the next line.
    pub(crate) fn advance_line(&mut self)
        requires
            old(self).wf(),
            old(self).cursor().index < old(self).source().len(),
        ensures
            final(self).wf(),
            final(self).source() == old(self).source(),
            final(self).cursor() == old(self).cursor().next_line(),
    {
        self.index += 1;
        self.position.line += 1;
        self.position.column = 0;
    }

    /// Passes one character and returns it.
    pub(crate) fn consume(&mut self) -> (x: char)
        requires
            old(self).wf(),
            old(self).within(),
        ensures
            final(self).wf(),
            final(self).source() == old(self).source(),
            final(self).cursor() == old(self).cursor().step(),
            x == char_at(old(self).source(), old(self).cursor().index),
            x != '\0' ==> final(self).within(),
    {
        let x = self.peek();
        self.advance();
        x
    }

    /// The character that the cursor stands on; U+0000 past the end.
    pub(crate) fn peek(&self) -> (x: char)
        requires
            self.wf(),
        ensures
            x == char_at(self.source(), self.cursor().index),
            x != '\0' ==> self.cursor().index < self.source().len(),
    {
        self.chars[self.index]
    }

    /// Passes the next character if it is `expected`.
    pub(crate) fn matches(&mut self, expected: char) -> (matched: bool)
        requires
            old(self).wf(),
            expected != '\0',
        ensures
            final(self).wf(),
            final(self).source() == old(self).source(),
            matched == (char_at(old(self).source(), old(self).cursor().index) == expected),
            matched ==> final(self).cursor() == old(self).cursor().step() && final(self).within(),
            !matched ==> final(self).cursor() == old(self).cursor(),
    {
        let matched = self.peek() == expected;
        if matched {
            self.advance();
        }
        matched
    }

    /// Passes the blanks that the cursor stands on.
    pub(crate) fn skip_whitespace(&mut self)
        requires
            old(self).wf(),
        ensures
            final(self).wf(),
            final(self).source() == old(self).source(),
            final(self).cursor() == skip_blanks(old(self).source(), old(self).cursor()),
    {
        loop
            invariant
                self.wf(),
                self.source() == old(self).source(),
                skip_blanks(self.source(), self.cursor()) == skip_blanks(
                    old(self).source(),
                    old(self).cursor(),
                ),
            decreases left(self.source(), self.cursor()),
        {
            let x = self.peek();
            if x == '\n' {
                self.advance_line();
            } else if x == ' ' || x == '\r' || x == '\t' {
                self.advance();
            } else {
                return ;
            }
        }
    }

    /// Passes the digits that the cursor stands on.
    pub(crate) fn skip_digits(&mut self)
        requires
            old(self).wf(),
            old(self).within(),
        ensures
            final(self).wf(),
            final(self).within(),
            final(self).source() == old(self).source(),
            final(self).cursor() == skip_digits(old(self).source(), old(self).cursor()),
            final(self).cursor().index >= old(self).cursor().index,
            final(self).cursor().line == old(self).cursor().line,
            final(self).cursor().column >= old(self).cursor().column,
    {
        loop
            invariant
                self.wf(),
                self.within(),
                self.source() == old(self).source(),
                self.cursor().index >= old(self).cursor().index,
                self.cursor().line == old(self).cursor().line,
                self.cursor().column >= old(self).cursor().column,
                skip_digits(self.source(), self.cursor()) == skip_digits(
                    old(self).source(),
                    old(self).cursor(),
                ),
            decreases left(self.source(), self.cursor()),
        {
            if !is_number(self.peek()) {
                return ;
            }
            self.advance();
        }
    }

    /// Whether the cursor stands at or past the end of the text.
    pub(crate) fn is_at_end(&self) -> (ended: bool)
        requires
            self.wf(),
        ensures
            ended == at_end(self.source(), self.cursor()),
    {
        self.index >= self.len
    }
}

/// The cursor of a token that begins at index `from` and position `start`.
pub open spec fn start_cursor(from: usize, start: TokenPosition) -> Cursor {
    Cursor { index: from as int, line: start.line as int, column: start.column as int }
}

/// Whether a number may begin at `index`.
pub open spec fn number_start_at(src: Seq<char>, index: int) -> bool {
    0 <= index < src.len() && crate::chars::number_start(src[index])
}

} // verus!
