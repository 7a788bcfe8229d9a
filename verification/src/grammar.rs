//! What parsing means: the grammar of JSON as functions from a text and the
//! state of a parser to a value, or an error, and the state that parsing
//! went on to.
//!
//! A parser has read one token ahead of what it has used. Its state, a
//! [`Look`], is that token and the cursor behind it.
use vstd::prelude::*;
use crate::chars::number_literal;
use crate::data::{has_key, ErrorView, JsonValue, KindView, TokenView};
use crate::lexis::{left, scan_token, Cursor};
use crate::lexis_laws::{law_end_marker_repeats, law_number_token_is_literal, lemma_scan_token};
use crate::messages::{
    duplicated_key_text, expected_string_text, expected_token_text, unexpected_token_text,
};

verus! {

/// The state of a parser: the token that it will use next, and where the
/// scanner stands after that token.
pub struct Look {
    pub upcoming: TokenView,
    pub cursor: Cursor,
}

/// A value, or another result of parsing, with the state after it.
pub type Parsed<T> = Result<(T, Look), ErrorView>;

/// An error at the first character of `token`.
pub open spec fn at_token(token: TokenView, msg: Seq<char>) -> ErrorView {
    ErrorView { msg, line: token.line, column: token.column }
}

/// The state before anything has been read: the lookahead holds a
/// placeholder, which no one uses, and the scanner stands at the beginning.
pub open spec fn initial() -> Look {
    Look {
        upcoming: TokenView { kind: KindView::Null, line: 0, column: 0 },
        cursor: Cursor::start(),
    }
}

/// Whether the lookahead of `st`, where it is a number, carries a number
/// literal. The scanner hands out no other numbers.
pub open spec fn lawful(st: Look) -> bool {
    st.upcoming.kind is Number ==> number_literal(st.upcoming.kind->Number_0)
}

/// How much is left to parse in state `st`. Every token that a parser uses
/// makes this smaller.
pub open spec fn measure(src: Seq<char>, st: Look) -> nat {
    2 * left(src, st.cursor) + if st.upcoming.kind is Eof {
        0nat
    } else {
        1nat
    }
}

/// The state after the upcoming token has been used: the lookahead is
/// filled with the next token of the text. An error of the scanner is
/// reported at once, before the token that was used is looked at.
pub open spec fn shift(src: Seq<char>, st: Look) -> Result<Look, ErrorView> {
    match scan_token(src, st.cursor).outcome {
        Ok(token) => Ok(Look { upcoming: token, cursor: scan_token(src, st.cursor).cursor }),
        Err(e) => Err(e),
    }
}

/// Uses the upcoming token, which has to be of the kind `expected`.
pub open spec fn expect(src: Seq<char>, st: Look, expected: KindView) -> Parsed<TokenView> {
    if st.upcoming.kind.same_kind(expected) {
        match shift(src, st) {
            Ok(next) => Ok((st.upcoming, next)),
            Err(e) => Err(e),
        }
    } else {
        Err(at_token(st.upcoming, expected_token_text(expected, st.upcoming.kind)))
    }
}

/// Uses the upcoming token, which has to be a string.
pub open spec fn expect_string(src: Seq<char>, st: Look) -> Parsed<TokenView> {
    if st.upcoming.kind is String {
        match shift(src, st) {
            Ok(next) => Ok((st.upcoming, next)),
            Err(e) => Err(e),
        }
    } else {
        Err(at_token(st.upcoming, expected_string_text(st.upcoming.kind)))
    }
}

/// One value: an object, an array, a number, a string, `true`, `false` or
/// `null`.
pub open spec fn parse_value(src: Seq<char>, st: Look) -> Parsed<JsonValue>
    decreases measure(src, st), 0nat,
    via parse_value_decreases
{
    match shift(src, st) {
        Err(e) => Err(e),
        Ok(next) => match st.upcoming.kind {
            KindView::LeftBrace => parse_object(src, next),
            KindView::LeftBracket => parse_array(src, next),
            KindView::Number(n) => Ok((JsonValue::Number(n), next)),
            KindView::String(s) => Ok((JsonValue::String(s), next)),
            KindView::True => Ok((JsonValue::Boolean(true), next)),
            KindView::False => Ok((JsonValue::Boolean(false), next)),
            KindView::Null => Ok((JsonValue::Null, next)),
            _ => Err(at_token(st.upcoming, unexpected_token_text(st.upcoming.kind))),
        },
    }
}

/// The rest of an array whose `[` has been used: `]` at once, or values
/// with commas between them and `]` after the last.
pub open spec fn parse_array(src: Seq<char>, st: Look) -> Parsed<JsonValue>
    decreases measure(src, st), 2nat,
{
    if st.upcoming.kind is RightBracket {
        match shift(src, st) {
            Ok(next) => Ok((JsonValue::Array(Seq::empty()), next)),
            Err(e) => Err(e),
        }
    } else {
        parse_items(src, st, Seq::empty())
    }
}

/// The values of an array from the next one on; `items` holds those
/// before it. After a comma another value must follow.
///
/// The measures are compared only to show that this definition is
/// well-founded: by `lemma_parse_value` the comparison always holds.
pub open spec fn parse_items(src: Seq<char>, st: Look, items: Seq<JsonValue>) -> Parsed<JsonValue>
    decreases measure(src, st), 1nat,
{
    match parse_value(src, st) {
        Err(e) => Err(e),
        Ok((value, after)) => if after.upcoming.kind is Comma {
            match shift(src, after) {
                Err(e) => Err(e),
                Ok(next) => if measure(src, next) < measure(src, st) {
                    parse_items(src, next, items.push(value))
                } else {
                    Err(at_token(next.upcoming, Seq::empty()))
                },
            }
        } else {
            match expect(src, after, KindView::RightBracket) {
                Err(e) => Err(e),
                Ok((_, next)) => Ok((JsonValue::Array(items.push(value)), next)),
            }
        },
    }
}

/// The rest of an object whose `{` has been used: `}` at once, or members
/// with commas between them and `}` after the last.
pub open spec fn parse_object(src: Seq<char>, st: Look) -> Parsed<JsonValue>
    decreases measure(src, st), 2nat,
{
    if st.upcoming.kind is RightBrace {
        match shift(src, st) {
            Ok(next) => Ok((JsonValue::Object(Seq::empty()), next)),
            Err(e) => Err(e),
        }
    } else {
        parse_members(src, st, Seq::empty())
    }
}

/// The members of an object from the next one on; `pairs` holds those
/// before it. A member is a string, a colon and a value; its key may not
/// be the key of an earlier member of the same object.
///
/// The measures are compared only to show that this definition is
/// well-founded: by `lemma_parse_value` the comparison always holds.
pub open spec fn parse_members(
    src: Seq<char>,
    st: Look,
    pairs: Seq<(Seq<char>, JsonValue)>,
) -> Parsed<JsonValue>
    decreases measure(src, st), 1nat,
    via parse_members_decreases
{
    match expect_string(src, st) {
        Err(e) => Err(e),
        Ok((key_token, after_key)) => {
            let key = key_token.kind->String_0;
            if has_key(pairs, key) {
                Err(at_token(key_token, duplicated_key_text(key)))
            } else {
                match expect(src, after_key, KindView::Colon) {
                    Err(e) => Err(e),
                    Ok((_, after_colon)) => match parse_value(src, after_colon) {
                        Err(e) => Err(e),
                        Ok((value, after)) => if after.upcoming.kind is Comma {
                            match shift(src, after) {
                                Err(e) => Err(e),
                                Ok(next) => if measure(src, next) < measure(src, st) {
                                    parse_members(src, next, pairs.push((key, value)))
                                } else {
                                    Err(at_token(next.upcoming, Seq::empty()))
                                },
                            }
                        } else {
                            match expect(src, after, KindView::RightBrace) {
                                Err(e) => Err(e),
                                Ok((_, next)) => Ok(
                                    (JsonValue::Object(pairs.push((key, value))), next),
                                ),
                            }
                        },
                    },
                }
            }
        },
    }
}

/// A whole text: one value, and then the end of the text.
pub open spec fn parse_text(src: Seq<char>) -> Result<JsonValue, ErrorView> {
    match shift(src, initial()) {
        Err(e) => Err(e),
        Ok(first) => match parse_value(src, first) {
            Err(e) => Err(e),
            Ok((value, after)) => match expect(src, after, KindView::Eof) {
                Err(e) => Err(e),
                Ok(_) => Ok(value),
            },
        },
    }
}

/// Using a token never makes the measure larger, and using a token other
/// than the end marker makes it smaller. A number that comes into the
/// lookahead carries a number literal, and after the end marker has come
/// into the lookahead, using it brings it there again.
pub proof fn lemma_shift(src: Seq<char>, st: Look)
    ensures
        match shift(src, st) {
            Ok(next) => {
                &&& measure(src, next) <= measure(src, st)
                &&& !(st.upcoming.kind is Eof) ==> measure(src, next) < measure(src, st)
                &&& next.cursor.index >= st.cursor.index
                &&& lawful(next)
                &&& next.upcoming.kind is Eof ==> shift(src, next) == Ok::<Look, ErrorView>(next)
            },
            Err(_) => true,
        },
{
    lemma_scan_token(src, st.cursor);
    law_number_token_is_literal(src, st.cursor);
    match shift(src, st) {
        Ok(next) => {
            if next.upcoming.kind is Eof {
                law_end_marker_repeats(src, st.cursor);
            }
        },
        Err(_) => {},
    }
}

#[via_fn]
proof fn parse_value_decreases(src: Seq<char>, st: Look) {
    lemma_shift(src, st);
}

#[via_fn]
proof fn parse_members_decreases(src: Seq<char>, st: Look, pairs: Seq<(Seq<char>, JsonValue)>) {
    lemma_shift(src, st);
    match expect_string(src, st) {
        Err(e) => {},
        Ok((key_token, after_key)) => {
            lemma_shift(src, after_key);
        },
    }
}

/// Parsing a value uses at least one token: where it succeeds, the measure
/// of the state after it is smaller than before.
pub proof fn lemma_parse_value(src: Seq<char>, st: Look)
    ensures
        match parse_value(src, st) {
            Ok((_, after)) => measure(src, after) < measure(src, st),
            Err(_) => true,
        },
    decreases measure(src, st), 0nat,
{
    lemma_shift(src, st);
    match shift(src, st) {
        Err(e) => {},
        Ok(next) => match st.upcoming.kind {
            KindView::LeftBrace => lemma_parse_object(src, next),
            KindView::LeftBracket => lemma_parse_array(src, next),
            _ => {},
        },
    }
}

/// Parsing the rest of an array never makes the measure larger.
proof fn lemma_parse_array(src: Seq<char>, st: Look)
    ensures
        match parse_array(src, st) {
            Ok((_, after)) => measure(src, after) <= measure(src, st),
            Err(_) => true,
        },
    decreases measure(src, st), 2nat,
{
    if st.upcoming.kind is RightBracket {
        lemma_shift(src, st);
    } else {
        lemma_parse_items(src, st, Seq::empty());
    }
}

/// Parsing the values of an array never makes the measure larger.
proof fn lemma_parse_items(src: Seq<char>, st: Look, items: Seq<JsonValue>)
    ensures
        match parse_items(src, st, items) {
            Ok((_, after)) => measure(src, after) <= measure(src, st),
            Err(_) => true,
        },
    decreases measure(src, st), 1nat,
{
    lemma_parse_value(src, st);
    match parse_value(src, st) {
        Err(e) => {},
        Ok((value, after)) => {
            lemma_shift(src, after);
            if after.upcoming.kind is Comma {
                match shift(src, after) {
                    Err(e) => {},
                    Ok(next) => {
                        lemma_parse_items(src, next, items.push(value));
                    },
                }
            }
        },
    }
}

/// Parsing the rest of an object never makes the measure larger.
proof fn lemma_parse_object(src: Seq<char>, st: Look)
    ensures
        match parse_object(src, st) {
            Ok((_, after)) => measure(src, after) <= measure(src, st),
            Err(_) => true,
        },
    decreases measure(src, st), 2nat,
{
    if st.upcoming.kind is RightBrace {
        lemma_shift(src, st);
    } else {
        lemma_parse_members(src, st, Seq::empty());
    }
}

/// Parsing the members of an object never makes the measure larger.
proof fn lemma_parse_members(
    src: Seq<char>,
    st: Look,
    pairs: Seq<(Seq<char>, JsonValue)>,
)
    ensures
        match parse_members(src, st, pairs) {
            Ok((_, after)) => measure(src, after) <= measure(src, st),
            Err(_) => true,
        },
    decreases measure(src, st), 1nat,
{
    lemma_shift(src, st);
    match expect_string(src, st) {
        Err(e) => {},
        Ok((key_token, after_key)) => {
            let key = key_token.kind->String_0;
            lemma_shift(src, after_key);
            if !has_key(pairs, key) {
                match expect(src, after_key, KindView::Colon) {
                    Err(e) => {},
                    Ok((_, after_colon)) => {
                        lemma_parse_value(src, after_colon);
                        match parse_value(src, after_colon) {
                            Err(e) => {},
                            Ok((value, after)) => {
                                lemma_shift(src, after);
                                if after.upcoming.kind is Comma {
                                    match shift(src, after) {
                                        Err(e) => {},
                                        Ok(next) => {
                                            lemma_parse_members(
                                                src,
                                                next,
                                                pairs.push((key, value)),
                                            );
                                        },
                                    }
                                }
                            },
                        }
                    },
                }
            }
        },
    }
}

} // verus!
