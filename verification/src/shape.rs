//! The shape of a value and the shape of its text. A value is written by a
//! sequence of tokens; the law of this module says that the text from
//! which a value was parsed is that sequence, token for token, followed by
//! the end of the text.
use vstd::prelude::*;
use crate::data::{JsonValue, KindView};
use crate::grammar::{
    expect, expect_string, initial, measure, parse_array, parse_items, parse_members,
    parse_object, parse_text, parse_value, shift, Look,
};
use crate::lexis::{scan_token, Cursor};

verus! {

/// The tokens that write `value`: a scalar is one token, an array is its
/// values between brackets with commas between them, an object is its
/// members between braces with commas between them.
pub open spec fn tokens_of(value: JsonValue) -> Seq<KindView>
    decreases value,
{
    match value {
        JsonValue::Null => seq![KindView::Null],
        JsonValue::Boolean(b) => if b {
            seq![KindView::True]
        } else {
            seq![KindView::False]
        },
        JsonValue::Number(n) => seq![KindView::Number(n)],
        JsonValue::String(s) => seq![KindView::String(s)],
        JsonValue::Array(items) => seq![KindView::LeftBracket] + items_tokens(items)
            + seq![KindView::RightBracket],
        JsonValue::Object(pairs) => seq![KindView::LeftBrace] + members_tokens(pairs)
            + seq![KindView::RightBrace],
    }
}

/// The tokens that write `items` with commas between them.
pub open spec fn items_tokens(items: Seq<JsonValue>) -> Seq<KindView>
    decreases items,
{
    if items.len() == 0 {
        Seq::empty()
    } else if items.len() == 1 {
        tokens_of(items[0])
    } else {
        tokens_of(items[0]) + seq![KindView::Comma] + items_tokens(items.drop_first())
    }
}

/// The tokens that write one member: its key, a colon and its value.
pub open spec fn member_tokens(key: Seq<char>, value: JsonValue) -> Seq<KindView> {
    seq![KindView::String(key), KindView::Colon] + tokens_of(value)
}

/// The tokens that write `pairs` with commas between them.
pub open spec fn members_tokens(pairs: Seq<(Seq<char>, JsonValue)>) -> Seq<KindView>
    decreases pairs,
{
    if pairs.len() == 0 {
        Seq::empty()
    } else if pairs.len() == 1 {
        seq![KindView::String(pairs[0].0), KindView::Colon] + tokens_of(pairs[0].1)
    } else {
        seq![KindView::String(pairs[0].0), KindView::Colon] + tokens_of(pairs[0].1) + seq![
            KindView::Comma,
        ] + members_tokens(pairs.drop_first())
    }
}

/// The kinds of the first `n` tokens of `src` from `c` on, if scanning
/// gives that many without an error. At the end of the text every further
/// token is the end marker.
pub open spec fn token_kinds(src: Seq<char>, c: Cursor, n: nat) -> Option<Seq<KindView>>
    decreases n,
{
    if n == 0 {
        Some(Seq::empty())
    } else {
        match scan_token(src, c).outcome {
            Err(_) => None,
            Ok(token) => match token_kinds(src, scan_token(src, c).cursor, (n - 1) as nat) {
                None => None,
                Some(rest) => Some(seq![token.kind] + rest),
            },
        }
    }
}

/// Whether a parser that starts in state `st` and uses the tokens `used`,
/// one after the other, ends in state `after`.
pub open spec fn reads(src: Seq<char>, st: Look, used: Seq<KindView>, after: Look) -> bool
    decreases used.len(),
{
    if used.len() == 0 {
        st == after
    } else {
        &&& used[0] == st.upcoming.kind
        &&& shift(src, st) is Ok
        &&& reads(src, shift(src, st)->Ok_0, used.drop_first(), after)
    }
}

/// Using one token is reading it.
proof fn lemma_reads_one(src: Seq<char>, st: Look, next: Look)
    requires
        shift(src, st) == Ok::<Look, crate::data::ErrorView>(next),
    ensures
        reads(src, st, seq![st.upcoming.kind], next),
{
    let used = seq![st.upcoming.kind];
    assert(used.drop_first().len() == 0);
    assert(reads(src, next, used.drop_first(), next));
}

/// Reading one run of tokens and then another is reading both.
proof fn lemma_reads_append(
    src: Seq<char>,
    st: Look,
    first: Seq<KindView>,
    mid: Look,
    second: Seq<KindView>,
    after: Look,
)
    requires
        reads(src, st, first, mid),
        reads(src, mid, second, after),
    ensures
        reads(src, st, first + second, after),
    decreases first.len(),
{
    if first.len() == 0 {
        assert(first + second =~= second);
    } else {
        let next = shift(src, st)->Ok_0;
        lemma_reads_append(src, next, first.drop_first(), mid, second, after);
        assert((first + second).drop_first() =~= first.drop_first() + second);
    }
}

/// What a run of tokens that a parser reads says of the text: scanning on
/// from the cursor of the first state gives the tokens after the first,
/// and then the lookahead of the last state.
proof fn lemma_reads_token_kinds(src: Seq<char>, st: Look, used: Seq<KindView>, after: Look)
    requires
        reads(src, st, used, after),
        used.len() >= 1,
    ensures
        token_kinds(src, st.cursor, used.len()) == Some(
            used.drop_first().push(after.upcoming.kind),
        ),
    decreases used.len(),
{
    let next = shift(src, st)->Ok_0;
    let rest = used.drop_first();
    assert(reads(src, next, rest, after));
    if rest.len() == 0 {
        assert(next == after);
        assert(token_kinds(src, next.cursor, 0) == Some(Seq::<KindView>::empty()));
        assert(seq![next.upcoming.kind] + Seq::<KindView>::empty() =~= rest.push(
            after.upcoming.kind,
        ));
    } else {
        lemma_reads_token_kinds(src, next, rest, after);
        assert(rest[0] == next.upcoming.kind);
        assert(seq![next.upcoming.kind] + rest.drop_first().push(after.upcoming.kind)
            =~= rest.push(after.upcoming.kind));
    }
}

/// Parsing a value reads the tokens that write it.
proof fn lemma_value_shape(src: Seq<char>, st: Look)
    ensures
        match parse_value(src, st) {
            Ok((value, after)) => reads(src, st, tokens_of(value), after),
            Err(_) => true,
        },
    decreases measure(src, st), 0nat,
{
    crate::grammar::lemma_shift(src, st);
    match shift(src, st) {
        Err(e) => {},
        Ok(next) => {
            lemma_reads_one(src, st, next);
            match st.upcoming.kind {
                KindView::LeftBrace => {
                    lemma_object_shape(src, next);
                    match parse_object(src, next) {
                        Err(e) => {},
                        Ok((value, after)) => {
                            lemma_reads_append(
                                src,
                                st,
                                seq![KindView::LeftBrace],
                                next,
                                members_tokens(value->Object_0) + seq![KindView::RightBrace],
                                after,
                            );
                            assert(seq![KindView::LeftBrace] + (members_tokens(value->Object_0)
                                + seq![KindView::RightBrace]) =~= tokens_of(value));
                        },
                    }
                },
                KindView::LeftBracket => {
                    lemma_array_shape(src, next);
                    match parse_array(src, next) {
                        Err(e) => {},
                        Ok((value, after)) => {
                            lemma_reads_append(
                                src,
                                st,
                                seq![KindView::LeftBracket],
                                next,
                                items_tokens(value->Array_0) + seq![KindView::RightBracket],
                                after,
                            );
                            assert(seq![KindView::LeftBracket] + (items_tokens(value->Array_0)
                                + seq![KindView::RightBracket]) =~= tokens_of(value));
                        },
                    }
                },
                _ => {},
            }
        },
    }
}

/// Parsing the rest of an array reads the tokens that write its values, and
/// the closing bracket.
proof fn lemma_array_shape(src: Seq<char>, st: Look)
    ensures
        match parse_array(src, st) {
            Ok((value, after)) => {
                &&& value is Array
                &&& reads(
                    src,
                    st,
                    items_tokens(value->Array_0) + seq![KindView::RightBracket],
                    after,
                )
            },
            Err(_) => true,
        },
    decreases measure(src, st), 2nat,
{
    if st.upcoming.kind is RightBracket {
        match shift(src, st) {
            Err(e) => {},
            Ok(next) => {
                lemma_reads_one(src, st, next);
                assert(items_tokens(Seq::<JsonValue>::empty()) + seq![KindView::RightBracket]
                    =~= seq![st.upcoming.kind]);
            },
        }
    } else {
        lemma_items_shape(src, st, Seq::empty());
        match parse_items(src, st, Seq::empty()) {
            Err(e) => {},
            Ok((value, after)) => {
                let all = value->Array_0;
                assert(all.subrange(0, all.len() as int) =~= all);
            },
        }
    }
}

/// Parsing the values of an array from the next one on keeps those
/// gathered before, and reads the tokens that write the others, and the
/// closing bracket.
proof fn lemma_items_shape(src: Seq<char>, st: Look, items: Seq<JsonValue>)
    ensures
        match parse_items(src, st, items) {
            Ok((value, after)) => {
                &&& value is Array
                &&& value->Array_0.len() > items.len()
                &&& value->Array_0.subrange(0, items.len() as int) == items
                &&& reads(
                    src,
                    st,
                    items_tokens(
                        value->Array_0.subrange(items.len() as int, value->Array_0.len() as int),
                    ) + seq![KindView::RightBracket],
                    after,
                )
            },
            Err(_) => true,
        },
    decreases measure(src, st), 1nat,
{
    lemma_value_shape(src, st);
    crate::grammar::lemma_parse_value(src, st);
    match parse_value(src, st) {
        Err(e) => {},
        Ok((value, after_value)) => {
            let more = items.push(value);
            let n = items.len() as int;
            if after_value.upcoming.kind is Comma {
                match shift(src, after_value) {
                    Err(e) => {},
                    Ok(next) => {
                        crate::grammar::lemma_shift(src, after_value);
                        lemma_reads_one(src, after_value, next);
                        lemma_items_shape(src, next, more);
                        match parse_items(src, next, more) {
                            Err(e) => {},
                            Ok((array, after)) => {
                                let all = array->Array_0;
                                let rest = all.subrange(n, all.len() as int);
                                let tail = all.subrange(n + 1, all.len() as int);
                                assert(all.subrange(0, n + 1) == more);
                                assert(all[n] == more[n]);
                                assert(all.subrange(0, n) =~= items) by {
                                    assert forall|i: int| 0 <= i < n implies all[i] == items[i] by {
                                        assert(all[i] == all.subrange(0, n + 1)[i]);
                                    }
                                }
                                assert(rest[0] == value);
                                assert(rest.drop_first() =~= tail);
                                assert(rest.len() >= 2);
                                assert(items_tokens(rest) == tokens_of(value) + seq![
                                    KindView::Comma,
                                ] + items_tokens(tail));
                                lemma_reads_append(
                                    src,
                                    st,
                                    tokens_of(value),
                                    after_value,
                                    seq![KindView::Comma],
                                    next,
                                );
                                lemma_reads_append(
                                    src,
                                    st,
                                    tokens_of(value) + seq![KindView::Comma],
                                    next,
                                    items_tokens(tail) + seq![KindView::RightBracket],
                                    after,
                                );
                                assert(tokens_of(value) + seq![KindView::Comma] + (items_tokens(
                                    tail,
                                ) + seq![KindView::RightBracket]) =~= items_tokens(rest) + seq![
                                    KindView::RightBracket,
                                ]);
                            },
                        }
                    },
                }
            } else {
                match expect(src, after_value, KindView::RightBracket) {
                    Err(e) => {},
                    Ok((_, next)) => {
                        lemma_reads_one(src, after_value, next);
                        let rest = more.subrange(n, more.len() as int);
                        assert(rest =~= seq![value]);
                        assert(more.subrange(0, n) =~= items);
                        assert(items_tokens(rest) == tokens_of(value));
                        lemma_reads_append(
                            src,
                            st,
                            tokens_of(value),
                            after_value,
                            seq![KindView::RightBracket],
                            next,
                        );
                    },
                }
            }
        },
    }
}

/// Parsing the rest of an object reads the tokens that write its members,
/// and the closing brace.
proof fn lemma_object_shape(src: Seq<char>, st: Look)
    ensures
        match parse_object(src, st) {
            Ok((value, after)) => {
                &&& value is Object
                &&& reads(
                    src,
                    st,
                    members_tokens(value->Object_0) + seq![KindView::RightBrace],
                    after,
                )
            },
            Err(_) => true,
        },
    decreases measure(src, st), 2nat,
{
    if st.upcoming.kind is RightBrace {
        match shift(src, st) {
            Err(e) => {},
            Ok(next) => {
                lemma_reads_one(src, st, next);
                assert(members_tokens(Seq::<(Seq<char>, JsonValue)>::empty()) + seq![
                    KindView::RightBrace,
                ] =~= seq![st.upcoming.kind]);
            },
        }
    } else {
        lemma_members_shape(src, st, Seq::empty());
        match parse_members(src, st, Seq::empty()) {
            Err(e) => {},
            Ok((value, after)) => {
                let all = value->Object_0;
                assert(all.subrange(0, all.len() as int) =~= all);
            },
        }
    }
}

/// Parsing the members of an object from the next one on keeps those
/// gathered before, and reads the tokens that write the others, and the
/// closing brace.
proof fn lemma_members_shape(src: Seq<char>, st: Look, pairs: Seq<(Seq<char>, JsonValue)>)
    ensures
        match parse_members(src, st, pairs) {
            Ok((value, after)) => {
                &&& value is Object
                &&& value->Object_0.len() > pairs.len()
                &&& value->Object_0.subrange(0, pairs.len() as int) == pairs
                &&& reads(
                    src,
                    st,
                    members_tokens(
                        value->Object_0.subrange(
                            pairs.len() as int,
                            value->Object_0.len() as int,
                        ),
                    ) + seq![KindView::RightBrace],
                    after,
                )
            },
            Err(_) => true,
        },
    decreases measure(src, st), 1nat,
{
    crate::grammar::lemma_shift(src, st);
    match expect_string(src, st) {
        Err(e) => {},
        Ok((key_token, after_key)) => {
            let key = key_token.kind->String_0;
            crate::grammar::lemma_shift(src, after_key);
            lemma_reads_one(src, st, after_key);
            if !crate::data::has_key(pairs, key) {
                match expect(src, after_key, KindView::Colon) {
                    Err(e) => {},
                    Ok((_, after_colon)) => {
                        lemma_reads_one(src, after_key, after_colon);
                        lemma_reads_append(
                            src,
                            st,
                            seq![KindView::String(key)],
                            after_key,
                            seq![KindView::Colon],
                            after_colon,
                        );
                        assert(seq![KindView::String(key)] + seq![KindView::Colon] =~= seq![
                            KindView::String(key),
                            KindView::Colon,
                        ]);
                        lemma_value_shape(src, after_colon);
                        crate::grammar::lemma_parse_value(src, after_colon);
                        match parse_value(src, after_colon) {
                            Err(e) => {},
                            Ok((value, after_value)) => {
                                lemma_reads_append(
                                    src,
                                    st,
                                    seq![KindView::String(key), KindView::Colon],
                                    after_colon,
                                    tokens_of(value),
                                    after_value,
                                );
                                let member = member_tokens(key, value);
                                assert(reads(src, st, member, after_value));
                                let more = pairs.push((key, value));
                                let n = pairs.len() as int;
                                if after_value.upcoming.kind is Comma {
                                    match shift(src, after_value) {
                                        Err(e) => {},
                                        Ok(next) => {
                                            crate::grammar::lemma_shift(src, after_value);
                                            lemma_reads_one(src, after_value, next);
                                            lemma_members_shape(src, next, more);
                                            match parse_members(src, next, more) {
                                                Err(e) => {},
                                                Ok((object, after)) => {
                                                    let all = object->Object_0;
                                                    let rest = all.subrange(n, all.len() as int);
                                                    let tail = all.subrange(
                                                        n + 1,
                                                        all.len() as int,
                                                    );
                                                    assert(all.subrange(0, n + 1) == more);
                                                    assert(all[n] == more[n]);
                                                    assert(all.subrange(0, n) =~= pairs) by {
                                                        assert forall|i: int|
                                                            0 <= i < n implies all[i]
                                                            == pairs[i] by {
                                                            assert(all[i] == all.subrange(
                                                                0,
                                                                n + 1,
                                                            )[i]);
                                                        }
                                                    }
                                                    assert(rest[0] == (key, value));
                                                    assert(rest.drop_first() =~= tail);
                                                    assert(rest.len() >= 2);
                                                    assert(members_tokens(rest) == member + seq![
                                                        KindView::Comma,
                                                    ] + members_tokens(tail));
                                                    lemma_reads_append(
                                                        src,
                                                        st,
                                                        member,
                                                        after_value,
                                                        seq![KindView::Comma],
                                                        next,
                                                    );
                                                    lemma_reads_append(
                                                        src,
                                                        st,
                                                        member + seq![KindView::Comma],
                                                        next,
                                                        members_tokens(tail) + seq![
                                                            KindView::RightBrace,
                                                        ],
                                                        after,
                                                    );
                                                    assert(member + seq![KindView::Comma] + (
                                                    members_tokens(tail) + seq![
                                                        KindView::RightBrace,
                                                    ]) =~= members_tokens(rest) + seq![
                                                        KindView::RightBrace,
                                                    ]);
                                                },
                                            }
                                        },
                                    }
                                } else {
                                    match expect(src, after_value, KindView::RightBrace) {
                                        Err(e) => {},
                                        Ok((_, next)) => {
                                            lemma_reads_one(src, after_value, next);
                                            let rest = more.subrange(n, more.len() as int);
                                            assert(rest =~= seq![(key, value)]);
                                            assert(more.subrange(0, n) =~= pairs);
                                            assert(members_tokens(rest) == member);
                                            lemma_reads_append(
                                                src,
                                                st,
                                                member,
                                                after_value,
                                                seq![KindView::RightBrace],
                                                next,
                                            );
                                        },
                                    }
                                }
                            },
                        }
                    },
                }
            }
        },
    }
}

/// The shape of a value is the shape of its text. Where parsing `src`
/// gives a value, the tokens of `src`, scanned from its beginning, are the
/// tokens that write that value, in their order, and after them the end
/// marker: no token is missing, none is added, none is out of place.
pub proof fn law_value_mirrors_text(src: Seq<char>)
    ensures
        match parse_text(src) {
            Ok(value) => token_kinds(
                src,
                Cursor::start(),
                (tokens_of(value).len() + 1) as nat,
            ) == Some(tokens_of(value).push(KindView::Eof)),
            Err(_) => true,
        },
{
    match shift(src, initial()) {
        Err(e) => {},
        Ok(first) => {
            lemma_value_shape(src, first);
            match parse_value(src, first) {
                Err(e) => {},
                Ok((value, after)) => {
                    if after.upcoming.kind is Eof {
                        let used = tokens_of(value);
                        lemma_first_token(value);
                        lemma_reads_token_kinds(src, first, used, after);
                        assert(seq![first.upcoming.kind] + used.drop_first().push(KindView::Eof)
                            =~= used.push(KindView::Eof));
                    }
                },
            }
        },
    }
}

/// The state of a parser after it has used `n` tokens, as far as the
/// scanner gives tokens.
pub open spec fn advance(src: Seq<char>, st: Look, n: nat) -> Look
    decreases n,
{
    if n == 0 {
        st
    } else {
        match shift(src, st) {
            Ok(next) => advance(src, next, (n - 1) as nat),
            Err(_) => st,
        }
    }
}

/// What reading a run of tokens begins with.
proof fn lemma_reads_first(src: Seq<char>, st: Look, used: Seq<KindView>, after: Look)
    requires
        reads(src, st, used, after),
        used.len() >= 1,
    ensures
        st.upcoming.kind == used[0],
        shift(src, st) is Ok,
        reads(src, shift(src, st)->Ok_0, used.drop_first(), after),
        used.len() == 1 ==> shift(src, st)->Ok_0 == after,
{
    if used.len() == 1 {
        assert(used.drop_first().len() == 0);
    }
}

/// Reading two runs of tokens is reading the first and then the second.
proof fn lemma_reads_split(
    src: Seq<char>,
    st: Look,
    first: Seq<KindView>,
    second: Seq<KindView>,
    after: Look,
)
    requires
        reads(src, st, first + second, after),
    ensures
        reads(src, st, first, advance(src, st, first.len())),
        reads(src, advance(src, st, first.len()), second, after),
    decreases first.len(),
{
    if first.len() == 0 {
        assert(first + second =~= second);
    } else {
        let all = first + second;
        assert(all[0] == first[0]);
        assert(all.drop_first() =~= first.drop_first() + second);
        let next = shift(src, st)->Ok_0;
        lemma_reads_split(src, next, first.drop_first(), second, after);
    }
}

/// Whether a value can begin with a token of kind `kind`.
pub open spec fn opens_value(kind: KindView) -> bool {
    kind is Null || kind is True || kind is False || kind is Number || kind is String
        || kind is LeftBracket || kind is LeftBrace
}

/// A value is written by at least one token.
pub proof fn lemma_tokens_of_is_not_empty(value: JsonValue)
    ensures
        tokens_of(value).len() >= 1,
{
}

/// The first of the tokens that write a value is one that a value can begin
/// with.
proof fn lemma_first_token(value: JsonValue)
    ensures
        tokens_of(value).len() >= 1,
        opens_value(tokens_of(value)[0]),
{
}

/// A parser that reads the tokens that write a well-formed value parses
/// that value.
proof fn lemma_complete_value(src: Seq<char>, st: Look, value: JsonValue, after: Look)
    requires
        value.well_formed(),
        reads(src, st, tokens_of(value), after),
    ensures
        parse_value(src, st) == Ok::<(JsonValue, Look), crate::data::ErrorView>((value, after)),
    decreases value, 0nat,
{
    lemma_first_token(value);
    lemma_reads_first(src, st, tokens_of(value), after);
    let next = shift(src, st)->Ok_0;
    match value {
        JsonValue::Array(items) => {
            let inner = items_tokens(items) + seq![KindView::RightBracket];
            assert(tokens_of(value).drop_first() =~= inner);
            law_array_keeps_its_items(src, next, items, after);
        },
        JsonValue::Object(pairs) => {
            let inner = members_tokens(pairs) + seq![KindView::RightBrace];
            assert(tokens_of(value).drop_first() =~= inner);
            law_object_keeps_its_members(src, next, pairs, after);
        },
        _ => {},
    }
}

/// A parser that reads the tokens that write well-formed values, and then
/// a closing bracket, parses the array of the values gathered before and
/// these.
proof fn lemma_complete_items(
    src: Seq<char>,
    st: Look,
    items: Seq<JsonValue>,
    rest: Seq<JsonValue>,
    after: Look,
)
    requires
        rest.len() >= 1,
        forall|i: int| 0 <= i < rest.len() ==> (#[trigger] rest[i]).well_formed(),
        reads(src, st, items_tokens(rest) + seq![KindView::RightBracket], after),
    ensures
        parse_items(src, st, items) == Ok::<(JsonValue, Look), crate::data::ErrorView>(
            (JsonValue::Array(items + rest), after),
        ),
    decreases rest, 0nat,
{
    let value = rest[0];
    let tail = rest.drop_first();
    let close = seq![KindView::RightBracket];
    let mid = advance(src, st, tokens_of(value).len());
    crate::grammar::lemma_parse_value(src, st);
    if rest.len() == 1 {
        assert(items_tokens(rest) + close =~= tokens_of(value) + close);
        lemma_reads_split(src, st, tokens_of(value), close, after);
        lemma_complete_value(src, st, value, mid);
        lemma_reads_first(src, mid, close, after);
        assert(items.push(value) =~= items + rest);
    } else {
        let remainder = seq![KindView::Comma] + (items_tokens(tail) + close);
        assert(items_tokens(rest) + close =~= tokens_of(value) + remainder);
        lemma_reads_split(src, st, tokens_of(value), remainder, after);
        lemma_complete_value(src, st, value, mid);
        lemma_reads_first(src, mid, remainder, after);
        assert(remainder.drop_first() =~= items_tokens(tail) + close);
        crate::grammar::lemma_shift(src, mid);
        let next = shift(src, mid)->Ok_0;
        assert forall|i: int| 0 <= i < tail.len() implies (#[trigger] tail[i]).well_formed() by {
            assert(tail[i] == rest[i + 1]);
        }
        lemma_complete_items(src, next, items.push(value), tail, after);
        assert(items.push(value) + tail =~= items + rest);
    }
}

/// A parser that reads the tokens that write members with well-formed
/// values and keys of their own, and then a closing brace, parses the
/// object of the members gathered before and these.
proof fn lemma_complete_members(
    src: Seq<char>,
    st: Look,
    pairs: Seq<(Seq<char>, JsonValue)>,
    rest: Seq<(Seq<char>, JsonValue)>,
    after: Look,
)
    requires
        rest.len() >= 1,
        crate::data::distinct_keys(pairs + rest),
        forall|i: int| 0 <= i < rest.len() ==> (#[trigger] rest[i]).1.well_formed(),
        reads(src, st, members_tokens(rest) + seq![KindView::RightBrace], after),
    ensures
        parse_members(src, st, pairs) == Ok::<(JsonValue, Look), crate::data::ErrorView>(
            (JsonValue::Object(pairs + rest), after),
        ),
    decreases rest, 0nat,
{
    let key = rest[0].0;
    let value = rest[0].1;
    let tail = rest.drop_first();
    let close = seq![KindView::RightBrace];
    let all = pairs + rest;
    let n = pairs.len() as int;
    assert(all[n] == rest[0]);
    assert(!crate::data::has_key(pairs, key)) by {
        if crate::data::has_key(pairs, key) {
            let i = choose|i: int| 0 <= i < pairs.len() && (#[trigger] pairs[i]).0 == key;
            assert(all[i] == pairs[i]);
            assert(all[i].0 != all[n].0);
        }
    }
    let used = members_tokens(rest) + close;
    assert(used[0] == KindView::String(key));
    lemma_reads_first(src, st, used, after);
    let after_key = shift(src, st)->Ok_0;
    assert(used.drop_first()[0] == KindView::Colon);
    lemma_reads_first(src, after_key, used.drop_first(), after);
    let after_colon = shift(src, after_key)->Ok_0;
    let mid = advance(src, after_colon, tokens_of(value).len());
    crate::grammar::lemma_shift(src, st);
    crate::grammar::lemma_shift(src, after_key);
    crate::grammar::lemma_parse_value(src, after_colon);
    if rest.len() == 1 {
        assert(used.drop_first().drop_first() =~= tokens_of(value) + close);
        lemma_reads_split(src, after_colon, tokens_of(value), close, after);
        lemma_complete_value(src, after_colon, value, mid);
        lemma_reads_first(src, mid, close, after);
        assert(pairs.push((key, value)) =~= pairs + rest);
    } else {
        let remainder = seq![KindView::Comma] + (members_tokens(tail) + close);
        assert(used.drop_first().drop_first() =~= tokens_of(value) + remainder);
        lemma_reads_split(src, after_colon, tokens_of(value), remainder, after);
        lemma_complete_value(src, after_colon, value, mid);
        lemma_reads_first(src, mid, remainder, after);
        assert(remainder.drop_first() =~= members_tokens(tail) + close);
        crate::grammar::lemma_shift(src, mid);
        let next = shift(src, mid)->Ok_0;
        assert forall|i: int| 0 <= i < tail.len() implies (#[trigger] tail[i]).1.well_formed() by {
            assert(tail[i] == rest[i + 1]);
        }
        assert(pairs.push((key, value)) + tail =~= pairs + rest);
        lemma_complete_members(src, next, pairs.push((key, value)), tail, after);
    }
}

/// An array keeps its values in their order. A parser that has used a `[`
/// and reads the tokens that write well-formed values, with commas between
/// them, and then a `]`, parses the array of exactly these values, in the
/// order of the text.
pub proof fn law_array_keeps_its_items(
    src: Seq<char>,
    st: Look,
    items: Seq<JsonValue>,
    after: Look,
)
    requires
        forall|i: int| 0 <= i < items.len() ==> (#[trigger] items[i]).well_formed(),
        reads(src, st, items_tokens(items) + seq![KindView::RightBracket], after),
    ensures
        parse_array(src, st) == Ok::<(JsonValue, Look), crate::data::ErrorView>(
            (JsonValue::Array(items), after),
        ),
    decreases items, 1nat,
{
    let inner = items_tokens(items) + seq![KindView::RightBracket];
    if items.len() == 0 {
        assert(inner =~= seq![KindView::RightBracket]);
        lemma_reads_first(src, st, inner, after);
    } else {
        lemma_first_token(items[0]);
        assert(inner[0] == tokens_of(items[0])[0]);
        lemma_reads_first(src, st, inner, after);
        assert(Seq::<JsonValue>::empty() + items =~= items);
        lemma_complete_items(src, st, Seq::empty(), items, after);
    }
}

/// An object keeps its members in their order. A parser that has used a
/// `{` and reads the tokens that write members with keys of their own and
/// well-formed values, with commas between them, and then a `}`, parses the
/// object of exactly these members, in the order of the text: none is
/// sorted, dropped or merged.
pub proof fn law_object_keeps_its_members(
    src: Seq<char>,
    st: Look,
    pairs: Seq<(Seq<char>, JsonValue)>,
    after: Look,
)
    requires
        crate::data::distinct_keys(pairs),
        forall|i: int| 0 <= i < pairs.len() ==> (#[trigger] pairs[i]).1.well_formed(),
        reads(src, st, members_tokens(pairs) + seq![KindView::RightBrace], after),
    ensures
        parse_object(src, st) == Ok::<(JsonValue, Look), crate::data::ErrorView>(
            (JsonValue::Object(pairs), after),
        ),
    decreases pairs, 1nat,
{
    let inner = members_tokens(pairs) + seq![KindView::RightBrace];
    if pairs.len() == 0 {
        assert(inner =~= seq![KindView::RightBrace]);
        lemma_reads_first(src, st, inner, after);
    } else {
        assert(inner[0] == KindView::String(pairs[0].0));
        lemma_reads_first(src, st, inner, after);
        assert(Seq::<(Seq<char>, JsonValue)>::empty() + pairs =~= pairs);
        lemma_complete_members(src, st, Seq::empty(), pairs, after);
    }
}

/// What the tokens of a text say of a parser: where scanning on from the
/// cursor of a state gives the tokens after the first of a run, and then
/// one more, the parser reads the run and ends with that one more token in
/// its lookahead.
proof fn lemma_token_kinds_reads(src: Seq<char>, st: Look, used: Seq<KindView>, last: KindView)
    requires
        used.len() >= 1,
        used[0] == st.upcoming.kind,
        token_kinds(src, st.cursor, used.len()) == Some(used.drop_first().push(last)),
    ensures
        reads(src, st, used, advance(src, st, used.len())),
        advance(src, st, used.len()).upcoming.kind == last,
    decreases used.len(),
{
    let scanned = scan_token(src, st.cursor);
    let kinds = used.drop_first().push(last);
    assert(scanned.outcome is Ok);
    let next = shift(src, st)->Ok_0;
    let rest = token_kinds(src, scanned.cursor, (used.len() - 1) as nat)->0;
    assert(kinds == seq![next.upcoming.kind] + rest);
    assert(kinds[0] == next.upcoming.kind);
    let tail = used.drop_first();
    assert(advance(src, st, used.len()) == advance(src, next, tail.len()));
    if used.len() == 1 {
        assert(kinds[0] == last);
        assert(advance(src, next, 0) == next);
        assert(reads(src, next, tail, next));
    } else {
        assert(kinds[0] == tail[0]);
        assert(rest =~= tail.drop_first().push(last)) by {
            assert(rest =~= kinds.drop_first());
        }
        lemma_token_kinds_reads(src, next, tail, last);
    }
}

/// Parsing succeeds on the texts of well-formed values, and on no others.
/// Parsing `src` gives `value` if and only if `value` is well formed and
/// the tokens of `src`, scanned from its beginning, are the tokens that
/// write `value` and then the end marker.
pub proof fn law_parse_succeeds_on_texts_of_values(src: Seq<char>, value: JsonValue)
    ensures
        parse_text(src) == Ok::<JsonValue, crate::data::ErrorView>(value) <==> {
            &&& value.well_formed()
            &&& token_kinds(src, Cursor::start(), (tokens_of(value).len() + 1) as nat) == Some(
                tokens_of(value).push(KindView::Eof),
            )
        },
{
    law_value_mirrors_text(src);
    crate::grammar_laws::law_parsed_value_is_well_formed(src);
    let used = tokens_of(value);
    lemma_first_token(value);
    if value.well_formed() && token_kinds(src, Cursor::start(), (used.len() + 1) as nat) == Some(
        used.push(KindView::Eof),
    ) {
        let kinds = used.push(KindView::Eof);
        let scanned = scan_token(src, Cursor::start());
        assert(scanned.outcome is Ok);
        let first = shift(src, initial())->Ok_0;
        let rest = token_kinds(src, scanned.cursor, used.len())->0;
        assert(kinds == seq![first.upcoming.kind] + rest);
        assert(kinds[0] == first.upcoming.kind);
        assert(kinds[0] == used[0]);
        assert(rest =~= used.drop_first().push(KindView::Eof)) by {
            assert(rest =~= kinds.drop_first());
        }
        lemma_token_kinds_reads(src, first, used, KindView::Eof);
        let after = advance(src, first, used.len());
        lemma_complete_value(src, first, value, after);
        lemma_reads_last(src, first, used, after);
    }
}

/// The state in which reading a run of tokens ends has been reached by
/// using a token.
proof fn lemma_reads_last(src: Seq<char>, st: Look, used: Seq<KindView>, after: Look)
    requires
        reads(src, st, used, after),
        used.len() >= 1,
    ensures
        after.upcoming.kind is Eof ==> shift(src, after) == Ok::<Look, crate::data::ErrorView>(
            after,
        ),
    decreases used.len(),
{
    lemma_reads_first(src, st, used, after);
    crate::grammar::lemma_shift(src, st);
    if used.len() > 1 {
        lemma_reads_last(src, shift(src, st)->Ok_0, used.drop_first(), after);
    }
}

/// Only the end of the text may follow the value. Where the tokens of
/// `src` are the tokens that write a well-formed value and then a token
/// other than the end marker, parsing fails at that token: it expected the
/// end of the text.
pub proof fn law_only_the_end_may_follow(src: Seq<char>, value: JsonValue, last: KindView)
    requires
        value.well_formed(),
        !(last is Eof),
        token_kinds(src, Cursor::start(), (tokens_of(value).len() + 1) as nat) == Some(
            tokens_of(value).push(last),
        ),
    ensures
        parse_text(src) is Err,
        parse_text(src)->Err_0.msg == crate::messages::expected_token_text(KindView::Eof, last),
{
    let used = tokens_of(value);
    lemma_first_token(value);
    let kinds = used.push(last);
    let scanned = scan_token(src, Cursor::start());
    assert(scanned.outcome is Ok);
    let first = shift(src, initial())->Ok_0;
    let rest = token_kinds(src, scanned.cursor, used.len())->0;
    assert(kinds == seq![first.upcoming.kind] + rest);
    assert(kinds[0] == first.upcoming.kind);
    assert(kinds[0] == used[0]);
    assert(rest =~= used.drop_first().push(last)) by {
        assert(rest =~= kinds.drop_first());
    }
    lemma_token_kinds_reads(src, first, used, last);
    let after = advance(src, first, used.len());
    lemma_complete_value(src, first, value, after);
}

} // verus!
