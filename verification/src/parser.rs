//! The parser: recursive descent over the tokens of a scanner, with one
//! token of lookahead. What each rule returns is given by the functions of
//! [`crate::grammar`].
use vstd::prelude::*;
use crate::data::{
    has_key, lemma_array_view, lemma_members_push, lemma_object_view, lemma_values_push,
    members_of, values_of, ErrorView, JsonElement, JsonToken, JsonValue, ParseError, TokenKind,
    TokenPosition, TokenView,
};
use crate::grammar::{
    expect, expect_string, initial, lemma_parse_value, lemma_shift, measure, parse_array,
    parse_items, parse_members, parse_object, parse_value, shift, Look,
};
use crate::messages::{duplicated_key, expected_string, expected_token, unexpected_token};
use crate::scanner::Scanner;

verus! {

/// A parser over one text.
pub struct JsonParser {
    scanner: Scanner,
    /// The token that will be used next.
    upcoming: JsonToken,
}

/// What a parsing call returned, as plain values.
pub open spec fn value_outcome(r: Result<JsonElement, ParseError>) -> Result<
    JsonValue,
    ErrorView,
> {
    match r {
        Ok(value) => Ok(value@),
        Err(e) => Err(e@),
    }
}

/// A whole text parsed from the state `st`: the lookahead is filled, one
/// value is parsed, and the end of the text must follow.
pub open spec fn parse_from(src: Seq<char>, st: Look) -> Result<JsonValue, ErrorView> {
    match shift(src, st) {
        Err(e) => Err(e),
        Ok(first) => match parse_value(src, first) {
            Err(e) => Err(e),
            Ok((value, after)) => match expect(src, after, crate::data::KindView::Eof) {
                Err(e) => Err(e),
                Ok(_) => Ok(value),
            },
        },
    }
}

/// Whether `key` is the key of one of `pairs`.
pub(crate) fn contains_key(pairs: &Vec<(String, JsonElement)>, key: &String) -> (found: bool)
    ensures
        found == has_key(members_of(pairs@), key@),
{
    let mut i: usize = 0;
    while i < pairs.len()
        invariant
            i <= pairs.len(),
            forall|k: int| 0 <= k < i ==> (#[trigger] members_of(pairs@)[k]).0 != key@,
        decreases pairs.len() - i,
    {
        if pairs[i].0 == *key {
            assert(members_of(pairs@)[i as int].0 == key@);
            return true;
        }
        i += 1;
    }
    false
}

impl JsonParser {
    /// The text that is parsed.
    pub closed spec fn source(&self) -> Seq<char> {
        self.scanner.source()
    }

    /// The state of the parser: its lookahead and the cursor of its scanner.
    pub closed spec fn look(&self) -> Look {
        Look { upcoming: self.upcoming@, cursor: self.scanner.cursor() }
    }

    /// The invariant of the parser: that of its scanner.
    pub closed spec fn wf(&self) -> bool {
        self.scanner.wf()
    }

    /// A parser at the beginning of `json`, with nothing read yet.
    pub fn from(json: &str) -> (parser: Self)
        ensures
            parser.wf(),
            parser.source() == json@,
            parser.look() == initial(),
    {
        Self { upcoming: JsonToken::dummy(), scanner: Scanner::new(json) }
    }

    /// Parses the text: one value, followed by nothing but blanks.
    pub fn parse(self) -> (r: Result<JsonElement, ParseError>)
        requires
            self.wf(),
        ensures
            value_outcome(r) == parse_from(self.source(), self.look()),
    {
        let mut parser = self;
        match parser.consume() {
            Err(e) => {
                return Err(e);
            },
            Ok(_) => {},
        }
        let elem = match parser.parse_element() {
            Err(e) => {
                return Err(e);
            },
            Ok(elem) => elem,
        };
        match parser.expect(TokenKind::Eof) {
            Err(e) => Err(e),
            Ok(_) => Ok(elem),
        }
    }

    /// Parses one value.
    pub(crate) fn parse_element(&mut self) -> (r: Result<JsonElement, ParseError>)
        requires
            old(self).wf(),
        ensures
            final(self).wf(),
            final(self).source() == old(self).source(),
            match r {
                Ok(value) => parse_value(old(self).source(), old(self).look()) == Ok::<
                    (JsonValue, Look),
                    ErrorView,
                >((value@, final(self).look())),
                Err(e) => parse_value(old(self).source(), old(self).look()) == Err::<
                    (JsonValue, Look),
                    ErrorView,
                >(e@),
            },
        decreases measure(old(self).source(), old(self).look()), 0nat,
    {
        proof {
            lemma_shift(self.source(), self.look());
        }
        let current = match self.consume() {
            Err(e) => {
                return Err(e);
            },
            Ok(current) => current,
        };
        let JsonToken { kind, pos } = current;
        match kind {
            TokenKind::LeftBrace => self.parse_object(),
            TokenKind::LeftBracket => self.parse_array(),
            TokenKind::Number(x) => Ok(JsonElement::Number(x)),
            TokenKind::String(x) => Ok(JsonElement::String(x)),
            TokenKind::True => Ok(JsonElement::Boolean(true)),
            TokenKind::False => Ok(JsonElement::Boolean(false)),
            TokenKind::Null => Ok(JsonElement::Null),
            other => Err(Self::make_error_at(unexpected_token(&other), &pos)),
        }
    }

    /// Parses the rest of an array whose `[` has been used.
    pub(crate) fn parse_array(&mut self) -> (r: Result<JsonElement, ParseError>)
        requires
            old(self).wf(),
        ensures
            final(self).wf(),
            final(self).source() == old(self).source(),
            match r {
                Ok(value) => parse_array(old(self).source(), old(self).look()) == Ok::<
                    (JsonValue, Look),
                    ErrorView,
                >((value@, final(self).look())),
                Err(e) => parse_array(old(self).source(), old(self).look()) == Err::<
                    (JsonValue, Look),
                    ErrorView,
                >(e@),
            },
        decreases measure(old(self).source(), old(self).look()), 2nat,
    {
        let mut arr: Vec<JsonElement> = Vec::new();
        match self.matches(TokenKind::RightBracket) {
            Err(e) => {
                return Err(e);
            },
            Ok(true) => {
                proof {
                    lemma_array_view(arr);
                    assert(values_of(arr@) =~= Seq::<JsonValue>::empty());
                }
                return Ok(JsonElement::Array(arr));
            },
            Ok(false) => {},
        }
        assert(values_of(arr@) =~= Seq::<JsonValue>::empty());
        loop
            invariant
                self.wf(),
                self.source() == old(self).source(),
                measure(self.source(), self.look()) <= measure(
                    old(self).source(),
                    old(self).look(),
                ),
                parse_items(self.source(), self.look(), values_of(arr@)) == parse_array(
                    old(self).source(),
                    old(self).look(),
                ),
            decreases measure(self.source(), self.look()),
        {
            let ghost before = self.look();
            let ghost items = arr@;
            proof {
                lemma_parse_value(self.source(), before);
            }
            let value = match self.parse_element() {
                Err(e) => {
                    return Err(e);
                },
                Ok(value) => value,
            };
            proof {
                lemma_values_push(items, value);
                lemma_shift(self.source(), self.look());
            }
            arr.push(value);
            match self.matches(TokenKind::Comma) {
                Err(e) => {
                    return Err(e);
                },
                Ok(true) => {},
                Ok(false) => {
                    return match self.expect(TokenKind::RightBracket) {
                        Err(e) => Err(e),
                        Ok(_) => {
                            proof {
                                lemma_array_view(arr);
                            }
                            Ok(JsonElement::Array(arr))
                        },
                    };
                },
            }
        }
    }

    /// Parses the rest of an object whose `{` has been used.
    pub(crate) fn parse_object(&mut self) -> (r: Result<JsonElement, ParseError>)
        requires
            old(self).wf(),
        ensures
            final(self).wf(),
            final(self).source() == old(self).source(),
            match r {
                Ok(value) => parse_object(old(self).source(), old(self).look()) == Ok::<
                    (JsonValue, Look),
                    ErrorView,
                >((value@, final(self).look())),
                Err(e) => parse_object(old(self).source(), old(self).look()) == Err::<
                    (JsonValue, Look),
                    ErrorView,
                >(e@),
            },
        decreases measure(old(self).source(), old(self).look()), 2nat,
    {
        let mut pairs: Vec<(String, JsonElement)> = Vec::new();
        match self.matches(TokenKind::RightBrace) {
            Err(e) => {
                return Err(e);
            },
            Ok(true) => {
                proof {
                    lemma_object_view(pairs);
                    assert(members_of(pairs@) =~= Seq::<(Seq<char>, JsonValue)>::empty());
                }
                return Ok(JsonElement::Object(pairs));
            },
            Ok(false) => {},
        }
        assert(members_of(pairs@) =~= Seq::<(Seq<char>, JsonValue)>::empty());
        loop
            invariant
                self.wf(),
                self.source() == old(self).source(),
                measure(self.source(), self.look()) <= measure(
                    old(self).source(),
                    old(self).look(),
                ),
                parse_members(self.source(), self.look(), members_of(pairs@)) == parse_object(
                    old(self).source(),
                    old(self).look(),
                ),
            decreases measure(self.source(), self.look()),
        {
            let ghost before = self.look();
            let ghost members = pairs@;
            proof {
                lemma_shift(self.source(), before);
            }
            let key_token = match self.expect_string() {
                Err(e) => {
                    return Err(e);
                },
                Ok(key_token) => key_token,
            };
            let pos = key_token.pos;
            let key = key_token.get_string();
            if contains_key(&pairs, &key) {
                return Err(Self::make_error_at(duplicated_key(key.as_str()), &pos));
            }
            proof {
                lemma_shift(self.source(), self.look());
            }
            match self.expect(TokenKind::Colon) {
                Err(e) => {
                    return Err(e);
                },
                Ok(_) => {},
            }
            proof {
                lemma_parse_value(self.source(), self.look());
            }
            let value = match self.parse_element() {
                Err(e) => {
                    return Err(e);
                },
                Ok(value) => value,
            };
            proof {
                lemma_members_push(members, key, value);
                lemma_shift(self.source(), self.look());
            }
            pairs.push((key, value));
            match self.matches(TokenKind::Comma) {
                Err(e) => {
                    return Err(e);
                },
                Ok(true) => {},
                Ok(false) => {
                    return match self.expect(TokenKind::RightBrace) {
                        Err(e) => Err(e),
                        Ok(_) => {
                            proof {
                                lemma_object_view(pairs);
                            }
                            Ok(JsonElement::Object(pairs))
                        },
                    };
                },
            }
        }
    }

    /// An error at `pos`.
    pub(crate) fn make_error_at(msg: String, pos: &TokenPosition) -> (e: ParseError)
        ensures
            e@ == (ErrorView { msg: msg@, line: pos.line as int, column: pos.column as int }),
    {
        ParseError::new(msg, pos.line, pos.column)
    }

    /// Hands out the upcoming token and reads the next one into its place.
    pub(crate) fn consume(&mut self) -> (r: Result<JsonToken, ParseError>)
        requires
            old(self).wf(),
        ensures
            final(self).wf(),
            final(self).source() == old(self).source(),
            match r {
                Ok(token) => {
                    &&& token@ == old(self).look().upcoming
                    &&& shift(old(self).source(), old(self).look()) == Ok::<Look, ErrorView>(
                        final(self).look(),
                    )
                },
                Err(e) => shift(old(self).source(), old(self).look()) == Err::<Look, ErrorView>(
                    e@,
                ),
            },
    {
        match self.scanner.next_token() {
            Err(e) => Err(e),
            Ok(next) => {
                let mut token = next;
                std::mem::swap(&mut self.upcoming, &mut token);
                Ok(token)
            },
        }
    }

    /// Uses the upcoming token if it is of the kind `expected`, and says
    /// whether it was.
    pub(crate) fn matches(&mut self, expected: TokenKind) -> (r: Result<bool, ParseError>)
        requires
            old(self).wf(),
        ensures
            final(self).wf(),
            final(self).source() == old(self).source(),
            match r {
                Ok(matched) => {
                    &&& matched == old(self).look().upcoming.kind.same_kind(expected@)
                    &&& matched ==> shift(old(self).source(), old(self).look()) == Ok::<
                        Look,
                        ErrorView,
                    >(final(self).look())
                    &&& !matched ==> final(self).look() == old(self).look()
                },
                Err(e) => {
                    &&& old(self).look().upcoming.kind.same_kind(expected@)
                    &&& shift(old(self).source(), old(self).look()) == Err::<Look, ErrorView>(e@)
                },
            },
    {
        let matched = self.upcoming.kind.same_kind(&expected);
        if matched {
            match self.scanner.next_token() {
                Err(e) => {
                    return Err(e);
                },
                Ok(next) => {
                    self.upcoming = next;
                },
            }
        }
        Ok(matched)
    }

    /// Uses the upcoming token, which has to be of the kind `expected`.
    pub(crate) fn expect(&mut self, expected: TokenKind) -> (r: Result<JsonToken, ParseError>)
        requires
            old(self).wf(),
        ensures
            final(self).wf(),
            final(self).source() == old(self).source(),
            match r {
                Ok(token) => expect(old(self).source(), old(self).look(), expected@) == Ok::<
                    (TokenView, Look),
                    ErrorView,
                >((token@, final(self).look())),
                Err(e) => expect(old(self).source(), old(self).look(), expected@) == Err::<
                    (TokenView, Look),
                    ErrorView,
                >(e@),
            },
            !old(self).look().upcoming.kind.same_kind(expected@) ==> final(self).look() == old(
                self,
            ).look(),
    {
        if self.upcoming.kind.same_kind(&expected) {
            self.consume()
        } else {
            Err(
                Self::make_error_at(
                    expected_token(&expected, &self.upcoming.kind),
                    &self.upcoming.pos,
                ),
            )
        }
    }

    /// Uses the upcoming token, which has to be a string.
    pub(crate) fn expect_string(&mut self) -> (r: Result<JsonToken, ParseError>)
        requires
            old(self).wf(),
        ensures
            final(self).wf(),
            final(self).source() == old(self).source(),
            match r {
                Ok(token) => {
                    &&& token.kind is String
                    &&& expect_string(old(self).source(), old(self).look()) == Ok::<
                        (TokenView, Look),
                        ErrorView,
                    >((token@, final(self).look()))
                },
                Err(e) => expect_string(old(self).source(), old(self).look()) == Err::<
                    (TokenView, Look),
                    ErrorView,
                >(e@),
            },
            !(old(self).look().upcoming.kind is String) ==> final(self).look() == old(self).look(),
    {
        if matches!(self.upcoming.kind, TokenKind::String(_)) {
            self.consume()
        } else {
            Err(Self::make_error_at(expected_string(&self.upcoming.kind), &self.upcoming.pos))
        }
    }
}

} // verus!
