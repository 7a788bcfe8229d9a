//! A text inside a text. Scanning looks no further than the token it reads,
//! so a text that stands inside another one, before a character at which
//! every token ends, gives the same tokens there. From this follow the laws
//! of nesting: a text set between brackets, or after a key, parses to the
//! same value, nested; blanks around a text leave its value; and a text
//! with anything but blanks behind its value does not parse.
use vstd::prelude::*;
use crate::chars::{digit, forbidden, letter, number_start};
use crate::data::{JsonValue, KindView};
use crate::grammar::parse_text;
use crate::grammar_laws::law_parsed_value_is_well_formed;
use crate::lexis::{
    at_end, char_at, left, punctuation, scan_escape, scan_exponent, scan_fraction, scan_from,
    scan_hex4, scan_integer, scan_keyword, scan_number, scan_string, scan_token, skip_blanks,
    skip_digits, skip_letters, skip_sign, Cursor,
};
use crate::lexis_laws::lemma_plain_run;
use crate::messages::expected_token_text;
use crate::shape::{
    items_tokens, law_only_the_end_may_follow, law_parse_succeeds_on_texts_of_values,
    law_value_mirrors_text, members_tokens, token_kinds, tokens_of,
};

verus! {

/// Whether every token ends before `ch`: no number and no keyword goes on
/// with it.
pub open spec fn ends_token(ch: char) -> bool {
    !letter(ch) && !digit(ch) && ch != '.'
}

/// Whether `part` stands in `whole` from the index `off` on, and what
/// follows it there, if anything, is a character before which every token
/// ends.
pub open spec fn stands_in(part: Seq<char>, whole: Seq<char>, off: int) -> bool {
    &&& 0 <= off
    &&& off + part.len() <= whole.len()
    &&& whole.subrange(off, off + part.len()) == part
    &&& ends_token(char_at(whole, off + part.len()))
}

/// The characters of a part are those of the whole, moved by `off`.
proof fn lemma_same_chars(part: Seq<char>, whole: Seq<char>, off: int)
    requires
        stands_in(part, whole, off),
    ensures
        forall|i: int| 0 <= i < part.len() ==> #[trigger] part[i] == whole[i + off],
        forall|i: int|
            0 <= i < part.len() ==> #[trigger] char_at(part, i) == char_at(whole, i + off),
{
    assert forall|i: int| 0 <= i < part.len() implies #[trigger] part[i] == whole[i + off] by {
        assert(whole.subrange(off, off + part.len())[i] == whole[i + off]);
    }
}

/// Whether the character at `index` is a blank.
pub open spec fn blank_at(src: Seq<char>, index: int) -> bool {
    0 <= index < src.len() && crate::chars::blank(src[index])
}

/// Passing over blanks does not depend on line and column.
proof fn lemma_blanks_same(src: Seq<char>, d: Cursor, e: Cursor)
    requires
        d.index == e.index,
    ensures
        skip_blanks(src, d).index == skip_blanks(src, e).index,
    decreases left(src, d),
{
    if 0 <= d.index < src.len() && blank_at(src, d.index) {
        if src[d.index] == '\n' {
            lemma_blanks_same(src, d.next_line(), e.next_line());
        } else {
            lemma_blanks_same(src, d.step(), e.step());
        }
    }
}

/// Passing over blanks in the part and in the whole comes to the same
/// place, or, from the end of the part, goes on in the whole as from there.
proof fn lemma_blanks_local(
    part: Seq<char>,
    whole: Seq<char>,
    off: int,
    c: Cursor,
    d: Cursor,
    e: Cursor,
)
    requires
        stands_in(part, whole, off),
        0 <= c.index <= part.len(),
        d.index == c.index + off,
        e.index == skip_blanks(part, c).index + off,
    ensures
        skip_blanks(whole, d).index == skip_blanks(whole, e).index,
        c.index <= skip_blanks(part, c).index <= part.len(),
        skip_blanks(part, c).index < part.len() ==> skip_blanks(whole, e) == e,
    decreases left(part, c),
{
    lemma_same_chars(part, whole, off);
    if 0 <= c.index < part.len() && crate::chars::blank(part[c.index]) {
        assert(part[c.index] == whole[c.index + off]);
        if part[c.index] == '\n' {
            lemma_blanks_local(part, whole, off, c.next_line(), d.next_line(), e);
        } else {
            lemma_blanks_local(part, whole, off, c.step(), d.step(), e);
        }
    } else {
        lemma_blanks_same(whole, d, e);
        if c.index < part.len() {
            assert(part[c.index] == whole[c.index + off]);
        }
    }
}

/// Passing over digits in the part and in the whole comes to the same
/// place.
proof fn lemma_digits_local(part: Seq<char>, whole: Seq<char>, off: int, c: Cursor, d: Cursor)
    requires
        stands_in(part, whole, off),
        0 <= c.index <= part.len(),
        d.index == c.index + off,
    ensures
        skip_digits(whole, d).index == skip_digits(part, c).index + off,
        c.index <= skip_digits(part, c).index <= part.len(),
    decreases left(part, c),
{
    lemma_same_chars(part, whole, off);
    if 0 <= c.index < part.len() && digit(part[c.index]) {
        assert(part[c.index] == whole[c.index + off]);
        lemma_digits_local(part, whole, off, c.step(), d.step());
    } else if c.index < part.len() {
        assert(part[c.index] == whole[c.index + off]);
    }
}

/// Passing over letters in the part and in the whole comes to the same
/// place.
proof fn lemma_letters_local(part: Seq<char>, whole: Seq<char>, off: int, c: Cursor, d: Cursor)
    requires
        stands_in(part, whole, off),
        0 <= c.index <= part.len(),
        d.index == c.index + off,
    ensures
        skip_letters(whole, d).index == skip_letters(part, c).index + off,
        c.index <= skip_letters(part, c).index <= part.len(),
    decreases left(part, c),
{
    lemma_same_chars(part, whole, off);
    if 0 <= c.index < part.len() && letter(part[c.index]) {
        assert(part[c.index] == whole[c.index + off]);
        lemma_letters_local(part, whole, off, c.step(), d.step());
    } else if c.index < part.len() {
        assert(part[c.index] == whole[c.index + off]);
    }
}

/// Four hexadecimal digits in the part are the same four in the whole.
proof fn lemma_hex4_local(part: Seq<char>, whole: Seq<char>, off: int, c: Cursor, d: Cursor)
    requires
        stands_in(part, whole, off),
        0 <= c.index <= part.len(),
        d.index == c.index + off,
    ensures
        scan_hex4(part, c).outcome is Ok ==> {
            &&& scan_hex4(whole, d).outcome == scan_hex4(part, c).outcome
            &&& scan_hex4(part, c).cursor.index == c.index + 4
            &&& scan_hex4(whole, d).cursor.index == d.index + 4
            &&& c.index + 4 <= part.len()
        },
{
    lemma_same_chars(part, whole, off);
    if scan_hex4(part, c).outcome is Ok {
        let in_part = part.subrange(c.index, c.index + 4);
        let in_whole = whole.subrange(d.index, d.index + 4);
        assert(in_part =~= in_whole) by {
            assert forall|i: int| 0 <= i < 4 implies in_part[i] == in_whole[i] by {
                assert(part[c.index + i] == whole[c.index + i + off]);
            }
        }
    }
}

/// An escape sequence in the part is the same one in the whole.
proof fn lemma_escape_local(part: Seq<char>, whole: Seq<char>, off: int, c: Cursor, d: Cursor)
    requires
        stands_in(part, whole, off),
        0 <= c.index <= part.len(),
        d.index == c.index + off,
    ensures
        scan_escape(part, c).outcome is Ok ==> {
            &&& scan_escape(whole, d).outcome == scan_escape(part, c).outcome
            &&& scan_escape(whole, d).cursor.index == scan_escape(part, c).cursor.index + off
            &&& c.index < scan_escape(part, c).cursor.index <= part.len()
        },
{
    lemma_same_chars(part, whole, off);
    if scan_escape(part, c).outcome is Ok {
        assert(c.index < part.len());
        assert(part[c.index] == whole[c.index + off]);
        if part[c.index] == 'u' {
            let c1 = c.step();
            let d1 = d.step();
            lemma_hex4_local(part, whole, off, c1, d1);
            let first = scan_hex4(part, c1);
            if first.outcome is Ok {
                let c5 = first.cursor;
                let d5 = scan_hex4(whole, d1).cursor;
                if crate::chars::high_surrogate(first.outcome->Ok_0) {
                    assert(char_at(part, c5.index) == '\\');
                    assert(c5.index < part.len());
                    assert(part[c5.index] == whole[c5.index + off]);
                    assert(char_at(part, c5.index + 1) == 'u');
                    assert(c5.index + 1 < part.len());
                    assert(part[c5.index + 1] == whole[c5.index + 1 + off]);
                    lemma_hex4_local(part, whole, off, c5.steps(2), d5.steps(2));
                }
            }
        }
    }
}

/// A string in the part is the same string in the whole.
proof fn lemma_string_local(
    part: Seq<char>,
    whole: Seq<char>,
    off: int,
    c: Cursor,
    d: Cursor,
    text: Seq<char>,
)
    requires
        stands_in(part, whole, off),
        0 <= c.index <= part.len(),
        d.index == c.index + off,
    ensures
        scan_string(part, c, text).outcome is Ok ==> {
            &&& scan_string(whole, d, text).outcome == scan_string(part, c, text).outcome
            &&& scan_string(whole, d, text).cursor.index == scan_string(
                part,
                c,
                text,
            ).cursor.index + off
            &&& c.index < scan_string(part, c, text).cursor.index <= part.len()
        },
    decreases left(part, c),
{
    lemma_same_chars(part, whole, off);
    if at_end(part, c) {
    } else {
        assert(part[c.index] == whole[c.index + off]);
        if part[c.index] == '"' {
        } else if part[c.index] == '\\' {
            lemma_escape_local(part, whole, off, c.step(), d.step());
            let escape = scan_escape(part, c.step());
            match escape.outcome {
                Err(e) => {},
                Ok(ch) => {
                    lemma_string_local(
                        part,
                        whole,
                        off,
                        escape.cursor,
                        scan_escape(whole, d.step()).cursor,
                        text.push(ch),
                    );
                },
            }
        } else if forbidden(part[c.index]) {
        } else {
            lemma_string_local(part, whole, off, c.step(), d.step(), text.push(part[c.index]));
        }
    }
}

/// A number in the part is the same number in the whole.
proof fn lemma_number_local(part: Seq<char>, whole: Seq<char>, off: int, c: Cursor, d: Cursor)
    requires
        stands_in(part, whole, off),
        0 <= c.index < part.len(),
        d.index == c.index + off,
        number_start(part[c.index]),
    ensures
        scan_number(part, c).outcome is Ok ==> {
            &&& scan_number(whole, d).outcome is Ok
            &&& scan_number(whole, d).outcome->Ok_0.kind == scan_number(
                part,
                c,
            ).outcome->Ok_0.kind
            &&& scan_number(whole, d).cursor.index == scan_number(part, c).cursor.index + off
            &&& c.index < scan_number(part, c).cursor.index <= part.len()
        },
{
    lemma_same_chars(part, whole, off);
    let x = part[c.index];
    assert(x == whole[d.index]);
    lemma_digits_local(part, whole, off, c.step(), d.step());
    if c.index + 2 <= part.len() {
        lemma_digits_local(part, whole, off, c.steps(2), d.steps(2));
    }
    let integer = scan_integer(part, x, c.step());
    let integer_w = scan_integer(whole, x, d.step());
    if integer.outcome is Ok {
        let ci = integer.cursor;
        let di = integer_w.cursor;
        assert(di.index == ci.index + off);
        assert(c.index < ci.index <= part.len());
        assert(integer_w.outcome is Ok);
        let fraction = scan_fraction(part, ci);
        let fraction_w = scan_fraction(whole, di);
        if ci.index + 2 <= part.len() {
            lemma_digits_local(part, whole, off, ci.steps(2), di.steps(2));
        }
        if fraction.outcome is Ok {
            let cf = fraction.cursor;
            let df = fraction_w.cursor;
            assert(fraction_w.outcome is Ok);
            assert(df.index == cf.index + off);
            assert(ci.index <= cf.index <= part.len());
            let exponent = scan_exponent(part, cf);
            let exponent_w = scan_exponent(whole, df);
            let cs = skip_sign(part, cf.step());
            let ds = skip_sign(whole, df.step());
            if exponent.outcome is Ok {
                if char_at(part, cf.index) == 'e' || char_at(part, cf.index) == 'E' {
                    assert(cf.index < part.len());
                    assert(digit(char_at(part, cs.index)));
                    assert(cs.index < part.len());
                    assert(ds.index == cs.index + off);
                    lemma_digits_local(part, whole, off, cs.step(), ds.step());
                }
                let ce = exponent.cursor;
                let de = exponent_w.cursor;
                assert(exponent_w.outcome is Ok);
                assert(de.index == ce.index + off);
                assert(cf.index <= ce.index <= part.len());
                assert(part.subrange(c.index, ce.index) =~= whole.subrange(d.index, de.index)) by {
                    assert forall|i: int| 0 <= i < ce.index - c.index implies part.subrange(
                        c.index,
                        ce.index,
                    )[i] == whole.subrange(d.index, de.index)[i] by {
                        assert(part[c.index + i] == whole[c.index + i + off]);
                    }
                }
            }
        }
    }
}

/// A keyword in the part is the same keyword in the whole.
proof fn lemma_keyword_local(part: Seq<char>, whole: Seq<char>, off: int, c: Cursor, d: Cursor)
    requires
        stands_in(part, whole, off),
        0 <= c.index < part.len(),
        d.index == c.index + off,
    ensures
        scan_keyword(part, c).outcome is Ok ==> {
            &&& scan_keyword(whole, d).outcome is Ok
            &&& scan_keyword(whole, d).outcome->Ok_0.kind == scan_keyword(
                part,
                c,
            ).outcome->Ok_0.kind
            &&& scan_keyword(whole, d).cursor.index == scan_keyword(part, c).cursor.index + off
            &&& c.index < scan_keyword(part, c).cursor.index <= part.len()
        },
{
    lemma_same_chars(part, whole, off);
    lemma_letters_local(part, whole, off, c.step(), d.step());
    let ce = skip_letters(part, c.step());
    let de = skip_letters(whole, d.step());
    assert(part.subrange(c.index, ce.index) =~= whole.subrange(d.index, de.index)) by {
        assert forall|i: int| 0 <= i < ce.index - c.index implies part.subrange(
            c.index,
            ce.index,
        )[i] == whole.subrange(d.index, de.index)[i] by {
            assert(part[c.index + i] == whole[c.index + i + off]);
        }
    }
}

/// A token in the part is the same token in the whole, but for its place.
proof fn lemma_from_local(part: Seq<char>, whole: Seq<char>, off: int, c: Cursor, d: Cursor)
    requires
        stands_in(part, whole, off),
        0 <= c.index < part.len(),
        d.index == c.index + off,
    ensures
        scan_from(part, c).outcome is Ok ==> {
            &&& scan_from(whole, d).outcome is Ok
            &&& scan_from(whole, d).outcome->Ok_0.kind == scan_from(part, c).outcome->Ok_0.kind
            &&& scan_from(whole, d).cursor.index == scan_from(part, c).cursor.index + off
            &&& c.index < scan_from(part, c).cursor.index <= part.len()
            &&& !(scan_from(part, c).outcome->Ok_0.kind is Eof)
        },
{
    reveal(scan_from);
    lemma_same_chars(part, whole, off);
    let x = part[c.index];
    assert(x == whole[d.index]);
    if punctuation(x) is Some {
    } else if x == '"' {
        lemma_string_local(part, whole, off, c.step(), d.step(), Seq::empty());
    } else if letter(x) {
        lemma_keyword_local(part, whole, off, c, d);
    } else if number_start(x) {
        lemma_number_local(part, whole, off, c, d);
    } else {
    }
}

/// Whether scanning from `d` goes like scanning from `e`: where the one
/// gives a token, the other gives a token of the same kind and stops at the
/// same index.
pub open spec fn goes_like(src: Seq<char>, d: Cursor, e: Cursor) -> bool {
    scan_token(src, e).outcome is Ok ==> {
        &&& scan_token(src, d).outcome is Ok
        &&& scan_token(src, d).outcome->Ok_0.kind == scan_token(src, e).outcome->Ok_0.kind
        &&& scan_token(src, d).cursor.index == scan_token(src, e).cursor.index
    }
}

/// A text stands in itself.
proof fn lemma_stands_in_itself(src: Seq<char>)
    ensures
        stands_in(src, src, 0),
{
    assert(src.subrange(0, src.len() as int) =~= src);
}

/// Whether `src` holds nothing but blanks from `from` up to `to`.
pub open spec fn blanks_between(src: Seq<char>, from: int, to: int) -> bool {
    &&& 0 <= from <= to <= src.len()
    &&& forall|i: int| from <= i < to ==> crate::chars::blank(#[trigger] src[i])
}

/// Passing over blanks from before a run of blanks and from behind it comes
/// to the same place.
proof fn lemma_blanks_run(src: Seq<char>, d: Cursor, e: Cursor)
    requires
        blanks_between(src, d.index, e.index),
    ensures
        skip_blanks(src, d).index == skip_blanks(src, e).index,
    decreases e.index - d.index,
{
    if d.index < e.index {
        assert(crate::chars::blank(src[d.index]));
        if src[d.index] == '\n' {
            lemma_blanks_run(src, d.next_line(), e);
        } else {
            lemma_blanks_run(src, d.step(), e);
        }
    } else {
        lemma_blanks_same(src, d, e);
    }
}

/// The next token of the part is the next token of the whole, but for its
/// place; and where the part has come to its end, scanning in the whole
/// goes on as from the end of the part. In the whole, scanning may begin
/// at blanks before the place where it begins in the part.
proof fn lemma_token_local(
    part: Seq<char>,
    whole: Seq<char>,
    off: int,
    c: Cursor,
    d: Cursor,
    e: Cursor,
)
    requires
        stands_in(part, whole, off),
        0 <= c.index <= part.len(),
        blanks_between(whole, d.index, c.index + off),
        e.index == part.len() + off,
    ensures
        match scan_token(part, c).outcome {
            Ok(token) => if token.kind is Eof {
                goes_like(whole, d, e)
            } else {
                &&& scan_token(whole, d).outcome is Ok
                &&& scan_token(whole, d).outcome->Ok_0.kind == token.kind
                &&& scan_token(whole, d).cursor.index == scan_token(part, c).cursor.index + off
                &&& c.index < scan_token(part, c).cursor.index <= part.len()
            },
            Err(_) => true,
        },
{
    reveal(scan_token);
    let cs = skip_blanks(part, c);
    let ds = skip_blanks(whole, d);
    let from = Cursor { index: c.index + off, line: 1, column: 0 };
    let at = Cursor { index: cs.index + off, line: 1, column: 0 };
    lemma_blanks_run(whole, d, from);
    lemma_blanks_local(part, whole, off, c, from, at);
    if cs.index < part.len() {
        assert(ds.index == cs.index + off);
        lemma_from_local(part, whole, off, cs, ds);
    } else {
        lemma_blanks_local(part, whole, off, c, from, e);
        let es = skip_blanks(whole, e);
        assert(ds.index == es.index);
        lemma_stands_in_itself(whole);
        lemma_blanks_local(whole, whole, 0, e, e, Cursor { index: es.index, line: 1, column: 0 });
        assert(scan_from(part, cs).outcome is Ok && scan_from(part, cs).outcome->Ok_0.kind is Eof)
            by {
            reveal(scan_from);
        }
        if es.index < whole.len() {
            lemma_from_local(whole, whole, 0, es, ds);
        } else {
            assert(scan_from(whole, es).cursor.index == scan_from(whole, ds).cursor.index
                && scan_from(whole, ds).outcome is Ok && scan_from(whole, ds).outcome->Ok_0.kind
                == scan_from(whole, es).outcome->Ok_0.kind) by {
                reveal(scan_from);
            }
        }
    }
}

/// Where scanning stands after `n` tokens from `c` on.
pub open spec fn cursor_after(src: Seq<char>, c: Cursor, n: nat) -> Cursor
    decreases n,
{
    if n == 0 {
        c
    } else {
        cursor_after(src, scan_token(src, c).cursor, (n - 1) as nat)
    }
}

/// Whether none of `kinds` is the end marker.
pub open spec fn no_end_marker(kinds: Seq<KindView>) -> bool {
    forall|i: int| 0 <= i < kinds.len() ==> !(#[trigger] kinds[i] is Eof)
}

/// The tokens of a run and the tokens after it are the tokens of both.
proof fn lemma_kinds_append(
    src: Seq<char>,
    c: Cursor,
    n1: nat,
    n2: nat,
    k1: Seq<KindView>,
    k2: Seq<KindView>,
)
    requires
        token_kinds(src, c, n1) == Some(k1),
        token_kinds(src, cursor_after(src, c, n1), n2) == Some(k2),
    ensures
        token_kinds(src, c, n1 + n2) == Some(k1 + k2),
        cursor_after(src, c, n1 + n2) == cursor_after(src, cursor_after(src, c, n1), n2),
    decreases n1,
{
    if n1 == 0 {
        assert(k1 + k2 =~= k2);
    } else {
        let next = scan_token(src, c).cursor;
        let rest = token_kinds(src, next, (n1 - 1) as nat)->0;
        lemma_kinds_append(src, next, (n1 - 1) as nat, n2, rest, k2);
        let token = scan_token(src, c).outcome->Ok_0;
        assert(seq![token.kind] + (rest + k2) =~= k1 + k2);
        assert((n1 + n2 - 1) as nat == (n1 - 1) as nat + n2);
    }
}

/// All but the last of the tokens of a run, and the last.
proof fn lemma_kinds_prefix(src: Seq<char>, c: Cursor, n: nat, kinds: Seq<KindView>)
    requires
        token_kinds(src, c, n + 1) == Some(kinds),
    ensures
        kinds.len() == n + 1,
        token_kinds(src, c, n) == Some(kinds.drop_last()),
        scan_token(src, cursor_after(src, c, n)).outcome is Ok,
        scan_token(src, cursor_after(src, c, n)).outcome->Ok_0.kind == kinds.last(),
    decreases n,
{
    let next = scan_token(src, c).cursor;
    let token = scan_token(src, c).outcome->Ok_0;
    let rest = token_kinds(src, next, n)->0;
    assert(kinds == seq![token.kind] + rest);
    if n == 0 {
        assert(token_kinds(src, next, 0) == Some(Seq::<KindView>::empty()));
        assert(kinds =~= seq![token.kind]);
        assert(kinds.drop_last() =~= Seq::<KindView>::empty());
    } else {
        lemma_kinds_prefix(src, next, (n - 1) as nat, rest);
        assert(kinds.drop_last() =~= seq![token.kind] + rest.drop_last());
        assert(kinds.last() == rest.last());
    }
}

/// One token is a run of one.
proof fn lemma_kinds_one(src: Seq<char>, c: Cursor)
    requires
        scan_token(src, c).outcome is Ok,
    ensures
        token_kinds(src, c, 1) == Some(seq![scan_token(src, c).outcome->Ok_0.kind]),
        cursor_after(src, c, 1) == scan_token(src, c).cursor,
{
    let next = scan_token(src, c).cursor;
    let kind = scan_token(src, c).outcome->Ok_0.kind;
    assert(token_kinds(src, next, 0) == Some(Seq::<KindView>::empty()));
    assert(seq![kind] + Seq::<KindView>::empty() =~= seq![kind]);
    assert(cursor_after(src, next, 0) == next);
}

/// The tokens of the part, as far as none is the end marker, are tokens of
/// the whole.
proof fn lemma_kinds_local(
    part: Seq<char>,
    whole: Seq<char>,
    off: int,
    c: Cursor,
    d: Cursor,
    n: nat,
    kinds: Seq<KindView>,
)
    requires
        stands_in(part, whole, off),
        0 <= c.index <= part.len(),
        blanks_between(whole, d.index, c.index + off),
        token_kinds(part, c, n) == Some(kinds),
        no_end_marker(kinds),
    ensures
        token_kinds(whole, d, n) == Some(kinds),
        n > 0 ==> cursor_after(whole, d, n).index == cursor_after(part, c, n).index + off,
        n == 0 ==> cursor_after(whole, d, n) == d,
        0 <= cursor_after(part, c, n).index <= part.len(),
    decreases n,
{
    if n > 0 {
        let next = scan_token(part, c).cursor;
        let token = scan_token(part, c).outcome->Ok_0;
        let rest = token_kinds(part, next, (n - 1) as nat)->0;
        assert(kinds == seq![token.kind] + rest);
        assert(kinds[0] == token.kind);
        assert(!(token.kind is Eof));
        let e = Cursor { index: part.len() + off, line: 1, column: 0 };
        lemma_token_local(part, whole, off, c, d, e);
        assert(no_end_marker(rest)) by {
            assert forall|i: int| 0 <= i < rest.len() implies !(#[trigger] rest[i] is Eof) by {
                assert(rest[i] == kinds[i + 1]);
            }
        }
        lemma_kinds_local(
            part,
            whole,
            off,
            next,
            scan_token(whole, d).cursor,
            (n - 1) as nat,
            rest,
        );
    }
}

/// None of the tokens that write a value is the end marker.
proof fn lemma_no_end_marker(value: JsonValue)
    ensures
        no_end_marker(tokens_of(value)),
    decreases value, 1nat,
{
    match value {
        JsonValue::Array(items) => {
            lemma_items_no_end_marker(items);
        },
        JsonValue::Object(pairs) => {
            lemma_members_no_end_marker(pairs);
        },
        _ => {},
    }
}

proof fn lemma_items_no_end_marker(items: Seq<JsonValue>)
    ensures
        no_end_marker(items_tokens(items)),
    decreases items, 0nat,
{
    if items.len() == 1 {
        lemma_no_end_marker(items[0]);
    } else if items.len() > 1 {
        lemma_no_end_marker(items[0]);
        lemma_items_no_end_marker(items.drop_first());
    }
}

proof fn lemma_members_no_end_marker(pairs: Seq<(Seq<char>, JsonValue)>)
    ensures
        no_end_marker(members_tokens(pairs)),
    decreases pairs, 0nat,
{
    if pairs.len() == 1 {
        lemma_no_end_marker(pairs[0].1);
    } else if pairs.len() > 1 {
        lemma_no_end_marker(pairs[0].1);
        lemma_members_no_end_marker(pairs.drop_first());
    }
}

/// The tokens of a text that parses are, inside a whole, the tokens that
/// write its value; and after them scanning in the whole goes on as from
/// the end of the part.
proof fn lemma_text_embedded(
    part: Seq<char>,
    whole: Seq<char>,
    off: int,
    d: Cursor,
    e: Cursor,
    value: JsonValue,
)
    requires
        stands_in(part, whole, off),
        parse_text(part) == Ok::<JsonValue, crate::data::ErrorView>(value),
        blanks_between(whole, d.index, off),
        e.index == off + part.len(),
    ensures
        token_kinds(whole, d, tokens_of(value).len()) == Some(tokens_of(value)),
        goes_like(whole, cursor_after(whole, d, tokens_of(value).len()), e),
{
    let used = tokens_of(value);
    let n = used.len();
    law_value_mirrors_text(part);
    lemma_kinds_prefix(part, Cursor::start(), n, used.push(KindView::Eof));
    assert(used.push(KindView::Eof).drop_last() =~= used);
    lemma_no_end_marker(value);
    lemma_kinds_local(part, whole, off, Cursor::start(), d, n, used);
    crate::shape::lemma_tokens_of_is_not_empty(value);
    lemma_token_local(
        part,
        whole,
        off,
        cursor_after(part, Cursor::start(), n),
        cursor_after(whole, d, n),
        e,
    );
}

/// A bracket, a brace, a comma or a colon is a token of its own.
proof fn lemma_punctuation_token(src: Seq<char>, c: Cursor)
    requires
        0 <= c.index < src.len(),
        punctuation(src[c.index]) is Some,
    ensures
        scan_token(src, c).outcome is Ok,
        scan_token(src, c).outcome->Ok_0.kind == punctuation(src[c.index])->0,
        scan_token(src, c).cursor.index == c.index + 1,
{
    reveal(scan_token);
    reveal(scan_from);
    assert(skip_blanks(src, c) == c);
}

/// At the end of the text the token is the end marker.
proof fn lemma_end_token(src: Seq<char>, c: Cursor)
    requires
        c.index >= src.len(),
    ensures
        scan_token(src, c).outcome is Ok,
        scan_token(src, c).outcome->Ok_0.kind is Eof,
{
    reveal(scan_token);
    reveal(scan_from);
}

/// Characters that need no escape, between two quotes, are a string token
/// that carries them.
proof fn lemma_plain_string_token(src: Seq<char>, c: Cursor, key: Seq<char>)
    requires
        0 <= c.index,
        c.index + key.len() + 1 < src.len(),
        src[c.index] == '"',
        src.subrange(c.index + 1, c.index + 1 + key.len()) == key,
        forall|i: int| 0 <= i < key.len() ==> !forbidden(#[trigger] key[i]),
        src[c.index + 1 + key.len()] == '"',
    ensures
        scan_token(src, c).outcome is Ok,
        scan_token(src, c).outcome->Ok_0.kind == KindView::String(key),
        scan_token(src, c).cursor.index == c.index + key.len() + 2,
{
    reveal(scan_token);
    reveal(scan_from);
    assert(skip_blanks(src, c) == c);
    let inside = c.step();
    let k = key.len() as int;
    assert forall|i: int| inside.index <= i < inside.index + k implies !forbidden(
        #[trigger] src[i],
    ) by {
        assert(src[i] == src.subrange(c.index + 1, c.index + 1 + k)[i - inside.index]);
        assert(!forbidden(key[i - inside.index]));
    }
    lemma_plain_run(src, inside, Seq::empty(), k);
    assert(Seq::<char>::empty() + src.subrange(inside.index, inside.index + k) =~= key);
}

/// What a text gives whose tokens begin with `opening`, go on with a part
/// that parses, and end with one closing token: the tokens at the
/// beginning, those that write the value of the part, the closing token
/// and the end marker.
proof fn lemma_wrapped(
    whole: Seq<char>,
    opening: Seq<KindView>,
    a: Seq<char>,
    off: int,
    x: JsonValue,
)
    requires
        token_kinds(whole, Cursor::start(), opening.len()) == Some(opening),
        cursor_after(whole, Cursor::start(), opening.len()).index == off,
        stands_in(a, whole, off),
        off + a.len() + 1 == whole.len(),
        punctuation(whole[off + a.len()]) is Some,
        parse_text(a) == Ok::<JsonValue, crate::data::ErrorView>(x),
    ensures
        token_kinds(whole, Cursor::start(), opening.len() + tokens_of(x).len() + 2) == Some(
            opening + tokens_of(x) + seq![punctuation(whole[off + a.len()])->0] + seq![
                KindView::Eof,
            ],
        ),
{
    let tx = tokens_of(x);
    let w0 = Cursor::start();
    let w1 = cursor_after(whole, w0, opening.len());
    let e = Cursor { index: off + a.len(), line: 1, column: 0 };
    let close = punctuation(whole[off + a.len()])->0;
    lemma_text_embedded(a, whole, off, w1, e, x);
    let w2 = cursor_after(whole, w1, tx.len());
    lemma_punctuation_token(whole, e);
    lemma_kinds_one(whole, w2);
    let w3 = scan_token(whole, w2).cursor;
    lemma_end_token(whole, w3);
    lemma_kinds_one(whole, w3);
    lemma_kinds_append(whole, w0, opening.len(), tx.len(), opening, tx);
    lemma_kinds_append(whole, w0, opening.len() + tx.len(), 1, opening + tx, seq![close]);
    lemma_kinds_append(
        whole,
        w0,
        opening.len() + tx.len() + 1,
        1,
        opening + tx + seq![close],
        seq![KindView::Eof],
    );
}

/// The tokens of `[a,`, where `a` parses to `x`: a bracket, the tokens
/// that write `x`, and a comma.
proof fn lemma_array_opening(whole: Seq<char>, a: Seq<char>, x: JsonValue)
    requires
        whole.len() >= a.len() + 2,
        whole[0] == '[',
        whole.subrange(1, 1 + a.len() as int) == a,
        whole[1 + a.len() as int] == ',',
        parse_text(a) == Ok::<JsonValue, crate::data::ErrorView>(x),
    ensures
        token_kinds(whole, Cursor::start(), 2 + tokens_of(x).len()) == Some(
            seq![KindView::LeftBracket] + tokens_of(x) + seq![KindView::Comma],
        ),
        cursor_after(whole, Cursor::start(), 2 + tokens_of(x).len()).index == a.len() + 2,
{
    let tx = tokens_of(x);
    let la = a.len() as int;
    assert(stands_in(a, whole, 1));
    let w0 = Cursor::start();
    lemma_punctuation_token(whole, w0);
    lemma_kinds_one(whole, w0);
    let w1 = scan_token(whole, w0).cursor;
    let e1 = Cursor { index: 1 + la, line: 1, column: 0 };
    lemma_text_embedded(a, whole, 1, w1, e1, x);
    let w2 = cursor_after(whole, w1, tx.len());
    lemma_punctuation_token(whole, e1);
    lemma_kinds_one(whole, w2);
    let k1 = seq![KindView::LeftBracket];
    lemma_kinds_append(whole, w0, 1, tx.len(), k1, tx);
    lemma_kinds_append(whole, w0, 1 + tx.len(), 1, k1 + tx, seq![KindView::Comma]);
}

/// The tokens of `{"key":`, where `key` holds no character that needs an
/// escape: a brace, the key, and a colon.
proof fn lemma_object_opening(whole: Seq<char>, key: Seq<char>)
    requires
        whole.len() >= key.len() + 4,
        whole[0] == '{',
        whole[1] == '"',
        whole.subrange(2, 2 + key.len() as int) == key,
        whole[2 + key.len() as int] == '"',
        whole[3 + key.len() as int] == ':',
        forall|i: int| 0 <= i < key.len() ==> !forbidden(#[trigger] key[i]),
    ensures
        token_kinds(whole, Cursor::start(), 3) == Some(
            seq![KindView::LeftBrace, KindView::String(key), KindView::Colon],
        ),
        cursor_after(whole, Cursor::start(), 3).index == key.len() + 4,
{
    let w0 = Cursor::start();
    lemma_punctuation_token(whole, w0);
    lemma_kinds_one(whole, w0);
    let w1 = scan_token(whole, w0).cursor;
    lemma_plain_string_token(whole, w1, key);
    lemma_kinds_one(whole, w1);
    let w2 = scan_token(whole, w1).cursor;
    lemma_punctuation_token(whole, w2);
    lemma_kinds_one(whole, w2);
    let k1 = seq![KindView::LeftBrace];
    lemma_kinds_append(whole, w0, 1, 1, k1, seq![KindView::String(key)]);
    lemma_kinds_append(
        whole,
        w0,
        2,
        1,
        k1 + seq![KindView::String(key)],
        seq![KindView::Colon],
    );
    assert(k1 + seq![KindView::String(key)] + seq![KindView::Colon] =~= seq![
        KindView::LeftBrace,
        KindView::String(key),
        KindView::Colon,
    ]);
}

/// Values nest in arrays. Where `a` parses to `x` and `b` parses to `y`,
/// the text `[a,b]` parses to the array of `x` and `y`.
pub proof fn law_values_nest_in_an_array(
    a: Seq<char>,
    b: Seq<char>,
    x: JsonValue,
    y: JsonValue,
)
    requires
        parse_text(a) == Ok::<JsonValue, crate::data::ErrorView>(x),
        parse_text(b) == Ok::<JsonValue, crate::data::ErrorView>(y),
    ensures
        parse_text(seq!['['] + a + seq![','] + b + seq![']']) == Ok::<
            JsonValue,
            crate::data::ErrorView,
        >(JsonValue::Array(seq![x, y])),
{
    let whole = seq!['['] + a + seq![','] + b + seq![']'];
    let value = JsonValue::Array(seq![x, y]);
    let tx = tokens_of(x);
    let ty = tokens_of(y);
    let la = a.len() as int;
    let lb = b.len() as int;
    let opening = seq![KindView::LeftBracket] + tx + seq![KindView::Comma];
    assert(whole.len() == la + lb + 3);
    assert(whole[0] == '[');
    assert(whole[1 + la] == ',');
    assert(whole[2 + la + lb] == ']');
    assert(whole.subrange(1, 1 + la) =~= a);
    assert(whole.subrange(2 + la, 2 + la + lb) =~= b);
    assert(stands_in(b, whole, 2 + la));
    lemma_array_opening(whole, a, x);
    lemma_wrapped(whole, opening, b, 2 + la, y);

    let items = seq![x, y];
    assert(items.drop_first() =~= seq![y]);
    assert(items_tokens(seq![y]) == ty);
    assert(items_tokens(items) == tx + seq![KindView::Comma] + ty);
    assert(tokens_of(value).push(KindView::Eof) =~= opening + ty + seq![KindView::RightBracket]
        + seq![KindView::Eof]);

    law_parsed_value_is_well_formed(a);
    law_parsed_value_is_well_formed(b);
    assert(value.well_formed());
    law_parse_succeeds_on_texts_of_values(whole, value);
}

/// A value nests in an object. Where `a` parses to `x` and `key` holds no
/// character that needs an escape, the text `{"key":a}` parses to the
/// object whose one member has the key `key` and the value `x`.
pub proof fn law_a_value_nests_in_an_object(key: Seq<char>, a: Seq<char>, x: JsonValue)
    requires
        forall|i: int| 0 <= i < key.len() ==> !forbidden(#[trigger] key[i]),
        parse_text(a) == Ok::<JsonValue, crate::data::ErrorView>(x),
    ensures
        parse_text(seq!['{', '"'] + key + seq!['"', ':'] + a + seq!['}']) == Ok::<
            JsonValue,
            crate::data::ErrorView,
        >(JsonValue::Object(seq![(key, x)])),
{
    let whole = seq!['{', '"'] + key + seq!['"', ':'] + a + seq!['}'];
    let value = JsonValue::Object(seq![(key, x)]);
    let tx = tokens_of(x);
    let la = a.len() as int;
    let lk = key.len() as int;
    let opening = seq![KindView::LeftBrace, KindView::String(key), KindView::Colon];
    assert(whole.len() == la + lk + 5);
    assert(whole[0] == '{');
    assert(whole[1] == '"');
    assert(whole[2 + lk] == '"');
    assert(whole[3 + lk] == ':');
    assert(whole[4 + lk + la] == '}');
    assert(whole.subrange(2, 2 + lk) =~= key);
    assert(whole.subrange(4 + lk, 4 + lk + la) =~= a);
    assert(stands_in(a, whole, 4 + lk));
    lemma_object_opening(whole, key);
    lemma_wrapped(whole, opening, a, 4 + lk, x);

    let pairs = seq![(key, x)];
    assert(members_tokens(pairs) == seq![KindView::String(key), KindView::Colon] + tx);
    assert(tokens_of(value).push(KindView::Eof) =~= opening + tx + seq![KindView::RightBrace]
        + seq![KindView::Eof]);

    law_parsed_value_is_well_formed(a);
    assert(value.well_formed());
    law_parse_succeeds_on_texts_of_values(whole, value);
}

/// Where nothing but blanks is left, the token is the end marker.
proof fn lemma_blanks_then_end(src: Seq<char>, c: Cursor)
    requires
        blanks_between(src, c.index, src.len() as int),
    ensures
        scan_token(src, c).outcome is Ok,
        scan_token(src, c).outcome->Ok_0.kind is Eof,
{
    reveal(scan_token);
    reveal(scan_from);
    let end = Cursor { index: src.len() as int, line: 1, column: 0 };
    lemma_blanks_run(src, c, end);
    assert(skip_blanks(src, end) == end);
}

/// Blanks around a text leave its value. Where `a` parses to `x`, and
/// `before` and `after` hold nothing but blanks, the text of `before`, `a`
/// and `after` parses to `x` too.
pub proof fn law_blanks_leave_the_value(
    before: Seq<char>,
    a: Seq<char>,
    after: Seq<char>,
    x: JsonValue,
)
    requires
        forall|i: int| 0 <= i < before.len() ==> crate::chars::blank(#[trigger] before[i]),
        forall|i: int| 0 <= i < after.len() ==> crate::chars::blank(#[trigger] after[i]),
        parse_text(a) == Ok::<JsonValue, crate::data::ErrorView>(x),
    ensures
        parse_text(before + a + after) == Ok::<JsonValue, crate::data::ErrorView>(x),
{
    let whole = before + a + after;
    let off = before.len() as int;
    let la = a.len() as int;
    let tx = tokens_of(x);
    assert(whole.subrange(off, off + la) =~= a);
    assert(off + la < whole.len() ==> whole[off + la] == after[0]);
    assert(stands_in(a, whole, off));
    assert(blanks_between(whole, 0, off)) by {
        assert forall|i: int| 0 <= i < off implies crate::chars::blank(#[trigger] whole[i]) by {
            assert(whole[i] == before[i]);
        }
    }
    assert(blanks_between(whole, off + la, whole.len() as int)) by {
        assert forall|i: int| off + la <= i < whole.len() implies crate::chars::blank(
            #[trigger] whole[i],
        ) by {
            assert(whole[i] == after[i - off - la]);
        }
    }
    let w0 = Cursor::start();
    let e = Cursor { index: off + la, line: 1, column: 0 };
    lemma_text_embedded(a, whole, off, w0, e, x);
    let w1 = cursor_after(whole, w0, tx.len());
    lemma_blanks_then_end(whole, e);
    lemma_kinds_one(whole, w1);
    lemma_kinds_append(whole, w0, tx.len(), 1, tx, seq![KindView::Eof]);
    assert(tx + seq![KindView::Eof] =~= tx.push(KindView::Eof));
    law_parsed_value_is_well_formed(a);
    law_parse_succeeds_on_texts_of_values(whole, x);
}

/// Nothing may follow the value. Where `a` parses, the text of `a` and a
/// bracket, a brace, a comma or a colon behind it does not: parsing expects
/// the end of the text there and says what it found. After a `]` the
/// message is "Expected end-of-file, found ']'".
pub proof fn law_nothing_may_follow_the_value(a: Seq<char>, follower: char, x: JsonValue)
    requires
        punctuation(follower) is Some,
        parse_text(a) == Ok::<JsonValue, crate::data::ErrorView>(x),
    ensures
        parse_text(a.push(follower)) is Err,
        parse_text(a.push(follower))->Err_0.msg == expected_token_text(
            KindView::Eof,
            punctuation(follower)->0,
        ),
{
    let whole = a.push(follower);
    let la = a.len() as int;
    let tx = tokens_of(x);
    let last = punctuation(follower)->0;
    assert(whole.subrange(0, la) =~= a);
    assert(whole[la] == follower);
    assert(stands_in(a, whole, 0));
    let w0 = Cursor::start();
    let e = Cursor { index: la, line: 1, column: 0 };
    lemma_text_embedded(a, whole, 0, w0, e, x);
    let w1 = cursor_after(whole, w0, tx.len());
    lemma_punctuation_token(whole, e);
    lemma_kinds_one(whole, w1);
    lemma_kinds_append(whole, w0, tx.len(), 1, tx, seq![last]);
    assert(tx + seq![last] =~= tx.push(last));
    law_parsed_value_is_well_formed(a);
    law_only_the_end_may_follow(whole, x, last);
}

} // verus!
