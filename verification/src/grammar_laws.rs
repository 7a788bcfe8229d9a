//! Laws of parsing: what holds of every value that parsing gives, proved
//! from the definitions of [`crate::grammar`].
use vstd::prelude::*;
use crate::data::{distinct_keys, has_key, JsonValue, KindView};
use crate::data::ErrorView;
use crate::grammar::{
    expect, expect_string, initial, lawful, lemma_shift, measure, parse_array, parse_items,
    parse_members, parse_object, parse_text, parse_value, shift, Look,
};
use crate::lexis_laws::law_positions_go_forward;

verus! {

/// Every value that parsing gives is well formed, if the values and members
/// gathered before it are.
proof fn lemma_value_well_formed(src: Seq<char>, st: Look)
    requires
        lawful(st),
    ensures
        match parse_value(src, st) {
            Ok((value, _)) => value.well_formed(),
            Err(_) => true,
        },
    decreases measure(src, st), 0nat,
{
    lemma_shift(src, st);
    match shift(src, st) {
        Err(e) => {},
        Ok(next) => match st.upcoming.kind {
            KindView::LeftBrace => {
                if !(next.upcoming.kind is RightBrace) {
                    lemma_members_well_formed(src, next, Seq::empty());
                }
            },
            KindView::LeftBracket => {
                if !(next.upcoming.kind is RightBracket) {
                    lemma_items_well_formed(src, next, Seq::empty());
                }
            },
            _ => {},
        },
    }
}

proof fn lemma_items_well_formed(src: Seq<char>, st: Look, items: Seq<JsonValue>)
    requires
        lawful(st),
        forall|i: int| 0 <= i < items.len() ==> (#[trigger] items[i]).well_formed(),
    ensures
        match parse_items(src, st, items) {
            Ok((value, _)) => value.well_formed(),
            Err(_) => true,
        },
    decreases measure(src, st), 1nat,
{
    lemma_value_well_formed(src, st);
    match parse_value(src, st) {
        Err(e) => {},
        Ok((value, after)) => {
            let more = items.push(value);
            assert forall|i: int| 0 <= i < more.len() implies (#[trigger] more[i]).well_formed() by {
                if i < items.len() {
                    assert(more[i] == items[i]);
                }
            }
            if after.upcoming.kind is Comma {
                lemma_shift(src, after);
                match shift(src, after) {
                    Err(e) => {},
                    Ok(next) => {
                        if measure(src, next) < measure(src, st) {
                            lemma_items_well_formed(src, next, more);
                        }
                    },
                }
            }
        },
    }
}

proof fn lemma_members_well_formed(
    src: Seq<char>,
    st: Look,
    pairs: Seq<(Seq<char>, JsonValue)>,
)
    requires
        lawful(st),
        distinct_keys(pairs),
        forall|i: int| 0 <= i < pairs.len() ==> (#[trigger] pairs[i]).1.well_formed(),
    ensures
        match parse_members(src, st, pairs) {
            Ok((value, _)) => value.well_formed(),
            Err(_) => true,
        },
    decreases measure(src, st), 1nat,
{
    lemma_shift(src, st);
    match expect_string(src, st) {
        Err(e) => {},
        Ok((key_token, after_key)) => {
            let key = key_token.kind->String_0;
            lemma_shift(src, after_key);
            if !has_key(pairs, key) {
                match expect(src, after_key, KindView::Colon) {
                    Err(e) => {},
                    Ok((_, after_colon)) => {
                        lemma_value_well_formed(src, after_colon);
                        match parse_value(src, after_colon) {
                            Err(e) => {},
                            Ok((value, after)) => {
                                let more = pairs.push((key, value));
                                assert forall|i: int| 0 <= i < more.len() implies (
                                #[trigger] more[i]).1.well_formed() by {
                                    if i < pairs.len() {
                                        assert(more[i] == pairs[i]);
                                    }
                                }
                                assert forall|i: int, j: int|
                                    0 <= i < j < more.len() implies (#[trigger] more[i]).0 != (
                                #[trigger] more[j]).0 by {
                                    assert(more[i] == pairs[i]);
                                    if j < pairs.len() {
                                        assert(more[j] == pairs[j]);
                                    }
                                }
                                if after.upcoming.kind is Comma {
                                    lemma_shift(src, after);
                                    match shift(src, after) {
                                        Err(e) => {},
                                        Ok(next) => {
                                            if measure(src, next)
                                                < measure(src, st) {
                                                lemma_members_well_formed(src, next, more);
                                            }
                                        },
                                    }
                                }
                            },
                        }
                    },
                }
            }
        },
    }
}

/// Parsing gives well-formed values. In a value that parsing a text gives,
/// every number is a number literal and no object, at any depth, has two
/// members with the same key.
pub proof fn law_parsed_value_is_well_formed(src: Seq<char>)
    ensures
        match parse_text(src) {
            Ok(value) => value.well_formed(),
            Err(_) => true,
        },
{
    lemma_shift(src, initial());
    match shift(src, initial()) {
        Err(e) => {},
        Ok(first) => {
            lemma_value_well_formed(src, first);
        },
    }
}

/// Whether `e` names a place in a text: a line from 1 on and a column from
/// 0 on.
pub open spec fn is_placed(e: ErrorView) -> bool {
    e.line >= 1 && e.column >= 0
}

/// Whether the lookahead and the cursor of `st` name places in a text.
pub open spec fn placed(st: Look) -> bool {
    &&& st.upcoming.line >= 1
    &&& st.upcoming.column >= 0
    &&& st.cursor.line >= 1
    &&& st.cursor.column >= 0
}

/// Using a token brings a token with a place into the lookahead, or fails
/// at a place.
proof fn lemma_shift_placed(src: Seq<char>, st: Look)
    requires
        st.cursor.line >= 1,
        st.cursor.column >= 0,
    ensures
        match shift(src, st) {
            Ok(next) => placed(next),
            Err(e) => is_placed(e),
        },
{
    law_positions_go_forward(src, st.cursor);
}

proof fn lemma_value_placed(src: Seq<char>, st: Look)
    requires
        placed(st),
    ensures
        match parse_value(src, st) {
            Ok((_, after)) => placed(after),
            Err(e) => is_placed(e),
        },
    decreases measure(src, st), 0nat,
{
    lemma_shift(src, st);
    lemma_shift_placed(src, st);
    match shift(src, st) {
        Err(e) => {},
        Ok(next) => match st.upcoming.kind {
            KindView::LeftBrace => {
                lemma_shift_placed(src, next);
                if !(next.upcoming.kind is RightBrace) {
                    lemma_members_placed(src, next, Seq::empty());
                }
            },
            KindView::LeftBracket => {
                lemma_shift_placed(src, next);
                if !(next.upcoming.kind is RightBracket) {
                    lemma_items_placed(src, next, Seq::empty());
                }
            },
            _ => {},
        },
    }
}

proof fn lemma_items_placed(src: Seq<char>, st: Look, items: Seq<JsonValue>)
    requires
        placed(st),
    ensures
        match parse_items(src, st, items) {
            Ok((_, after)) => placed(after),
            Err(e) => is_placed(e),
        },
    decreases measure(src, st), 1nat,
{
    lemma_value_placed(src, st);
    match parse_value(src, st) {
        Err(e) => {},
        Ok((value, after)) => {
            lemma_shift(src, after);
            lemma_shift_placed(src, after);
            if after.upcoming.kind is Comma {
                match shift(src, after) {
                    Err(e) => {},
                    Ok(next) => {
                        if measure(src, next) < measure(src, st) {
                            lemma_items_placed(src, next, items.push(value));
                        }
                    },
                }
            }
        },
    }
}

proof fn lemma_members_placed(src: Seq<char>, st: Look, pairs: Seq<(Seq<char>, JsonValue)>)
    requires
        placed(st),
    ensures
        match parse_members(src, st, pairs) {
            Ok((_, after)) => placed(after),
            Err(e) => is_placed(e),
        },
    decreases measure(src, st), 1nat,
{
    lemma_shift(src, st);
    lemma_shift_placed(src, st);
    match expect_string(src, st) {
        Err(e) => {},
        Ok((key_token, after_key)) => {
            let key = key_token.kind->String_0;
            lemma_shift(src, after_key);
            lemma_shift_placed(src, after_key);
            if !has_key(pairs, key) {
                match expect(src, after_key, KindView::Colon) {
                    Err(e) => {},
                    Ok((_, after_colon)) => {
                        lemma_value_placed(src, after_colon);
                        match parse_value(src, after_colon) {
                            Err(e) => {},
                            Ok((value, after)) => {
                                lemma_shift(src, after);
                                lemma_shift_placed(src, after);
                                if after.upcoming.kind is Comma {
                                    match shift(src, after) {
                                        Err(e) => {},
                                        Ok(next) => {
                                            if measure(src, next) < measure(src, st) {
                                                lemma_members_placed(
                                                    src,
                                                    next,
                                                    pairs.push((key, value)),
                                                );
                                            }
                                        },
                                    }
                                }
                            },
                        }
                    },
                }
            }
        },
    }
}

/// Errors have places. An error that parsing a text gives names a line
/// from 1 on and a column from 0 on.
pub proof fn law_errors_are_placed(src: Seq<char>)
    ensures
        match parse_text(src) {
            Ok(_) => true,
            Err(e) => is_placed(e),
        },
{
    lemma_shift_placed(src, initial());
    match shift(src, initial()) {
        Err(e) => {},
        Ok(first) => {
            lemma_value_placed(src, first);
            match parse_value(src, first) {
                Err(e) => {},
                Ok((value, after)) => {
                    lemma_shift_placed(src, after);
                },
            }
        },
    }
}

} // verus!
