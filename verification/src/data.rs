//! The data model shared by the scanner and the parser: positions, tokens,
//! errors and the value tree, each with the mathematical view that the
//! contracts of this crate speak of.
use vstd::prelude::*;
use crate::chars::number_literal;

verus! {

/// A place in the source text. `line` is 1-based; `column` is 0-based and
/// counts characters, not bytes.
#[derive(Debug, Clone, Copy, PartialEq)]
pub struct TokenPosition {
    pub line: usize,
    pub column: usize,
}

impl Default for TokenPosition {
    /// The position of the first character of a text.
    fn default() -> (pos: Self)
        ensures
            pos.line == 1,
            pos.column == 0,
    {
        Self { line: 1, column: 0 }
    }
}

/// Returned when a JSON text is malformed.
#[derive(Debug, Clone, PartialEq, Eq)]
pub struct ParseError {
    /// Description of the error, meant for people.
    pub msg: String,
    /// 1-based line of the offending character or token.
    pub line: usize,
    /// 0-based column of the offending character or token.
    pub column: usize,
}

/// What a [`ParseError`] says, as plain mathematical values.
pub struct ErrorView {
    pub msg: Seq<char>,
    pub line: int,
    pub column: int,
}

impl View for ParseError {
    type V = ErrorView;

    open spec fn view(&self) -> ErrorView {
        ErrorView { msg: self.msg@, line: self.line as int, column: self.column as int }
    }
}

impl ParseError {
    /// An error that says `msg` of the place at `line` and `column`.
    pub fn new(msg: String, line: usize, column: usize) -> (err: Self)
        ensures
            err.msg == msg,
            err.line == line,
            err.column == column,
            err@ == (ErrorView { msg: msg@, line: line as int, column: column as int }),
    {
        Self { msg, line, column }
    }
}

/// The kinds of token. A number carries its literal exactly as written, a
/// string carries its text with every escape sequence already decoded.
#[derive(Debug, Clone, PartialEq)]
pub enum TokenKind {
    LeftBrace,
    RightBrace,
    LeftBracket,
    RightBracket,
    Comma,
    Colon,
    True,
    False,
    Null,
    Number(String),
    String(String),
    Eof,
}

/// The view of a [`TokenKind`].
pub enum KindView {
    LeftBrace,
    RightBrace,
    LeftBracket,
    RightBracket,
    Comma,
    Colon,
    True,
    False,
    Null,
    Number(Seq<char>),
    String(Seq<char>),
    Eof,
}

impl KindView {
    /// A number that tells the variants apart and ignores what they carry.
    pub open spec fn tag(self) -> int {
        match self {
            KindView::LeftBrace => 0,
            KindView::RightBrace => 1,
            KindView::LeftBracket => 2,
            KindView::RightBracket => 3,
            KindView::Comma => 4,
            KindView::Colon => 5,
            KindView::True => 6,
            KindView::False => 7,
            KindView::Null => 8,
            KindView::Number(_) => 9,
            KindView::String(_) => 10,
            KindView::Eof => 11,
        }
    }

    /// Two kinds are the same kind when they are the same variant, whatever
    /// number or text they carry.
    pub open spec fn same_kind(self, other: KindView) -> bool {
        self.tag() == other.tag()
    }

    /// How a kind is named in error messages.
    pub open spec fn describe(self) -> Seq<char> {
        match self {
            KindView::LeftBrace => "'{'"@,
            KindView::RightBrace => "'}'"@,
            KindView::LeftBracket => "'['"@,
            KindView::RightBracket => "']'"@,
            KindView::Comma => "','"@,
            KindView::Colon => "':'"@,
            KindView::True => "boolean (true)"@,
            KindView::False => "boolean (false)"@,
            KindView::Null => "null"@,
            KindView::Number(n) => "number ("@ + n + ")"@,
            KindView::String(s) => "string (\""@ + s + "\")"@,
            KindView::Eof => "end-of-file"@,
        }
    }
}

impl View for TokenKind {
    type V = KindView;

    open spec fn view(&self) -> KindView {
        match self {
            TokenKind::LeftBrace => KindView::LeftBrace,
            TokenKind::RightBrace => KindView::RightBrace,
            TokenKind::LeftBracket => KindView::LeftBracket,
            TokenKind::RightBracket => KindView::RightBracket,
            TokenKind::Comma => KindView::Comma,
            TokenKind::Colon => KindView::Colon,
            TokenKind::True => KindView::True,
            TokenKind::False => KindView::False,
            TokenKind::Null => KindView::Null,
            TokenKind::Number(n) => KindView::Number(n@),
            TokenKind::String(s) => KindView::String(s@),
            TokenKind::Eof => KindView::Eof,
        }
    }
}

impl TokenKind {
    fn tag(&self) -> (t: u8)
        ensures
            t as int == self@.tag(),
    {
        match self {
            TokenKind::LeftBrace => 0,
            TokenKind::RightBrace => 1,
            TokenKind::LeftBracket => 2,
            TokenKind::RightBracket => 3,
            TokenKind::Comma => 4,
            TokenKind::Colon => 5,
            TokenKind::True => 6,
            TokenKind::False => 7,
            TokenKind::Null => 8,
            TokenKind::Number(_) => 9,
            TokenKind::String(_) => 10,
            TokenKind::Eof => 11,
        }
    }

    /// Whether `self` and `other` are the same variant. What a number or a
    /// string token carries plays no part.
    pub fn same_kind(&self, other: &Self) -> (same: bool)
        ensures
            same == self@.same_kind(other@),
    {
        self.tag() == other.tag()
    }

    /// The name of this kind as error messages print it.
    pub fn describe(&self) -> (text: String)
        ensures
            text@ == self@.describe(),
    {
        match self {
            TokenKind::LeftBrace => String::from_str("'{'"),
            TokenKind::RightBrace => String::from_str("'}'"),
            TokenKind::LeftBracket => String::from_str("'['"),
            TokenKind::RightBracket => String::from_str("']'"),
            TokenKind::Comma => String::from_str("','"),
            TokenKind::Colon => String::from_str("':'"),
            TokenKind::True => String::from_str("boolean (true)"),
            TokenKind::False => String::from_str("boolean (false)"),
            TokenKind::Null => String::from_str("null"),
            TokenKind::Number(n) => {
                let mut text = String::from_str("number (");
                text.append(n.as_str());
                text.append(")");
                text
            },
            TokenKind::String(s) => {
                let mut text = String::from_str("string (\"");
                text.append(s.as_str());
                text.append("\")");
                text
            },
            TokenKind::Eof => String::from_str("end-of-file"),
        }
    }
}

/// A token together with the position of its first character.
#[derive(Debug, Clone, PartialEq)]
pub struct JsonToken {
    pub kind: TokenKind,
    pub pos: TokenPosition,
}

/// The view of a [`JsonToken`].
pub struct TokenView {
    pub kind: KindView,
    pub line: int,
    pub column: int,
}

impl View for JsonToken {
    type V = TokenView;

    open spec fn view(&self) -> TokenView {
        TokenView {
            kind: self.kind@,
            line: self.pos.line as int,
            column: self.pos.column as int,
        }
    }
}

impl JsonToken {
    /// A placeholder that fills the parser's lookahead before the first token
    /// has been read. It never reaches a caller of the parser.
    pub fn dummy() -> (token: Self)
        ensures
            token@ == (TokenView { kind: KindView::Null, line: 0, column: 0 }),
    {
        let pos = TokenPosition { column: 0, line: 0 };
        let kind = TokenKind::Null;
        Self { pos, kind }
    }

    /// A token of kind `kind` whose first character is at `line` and
    /// `column`.
    pub fn new(kind: TokenKind, line: usize, column: usize) -> (token: Self)
        ensures
            token.kind == kind,
            token.pos.line == line,
            token.pos.column == column,
    {
        let pos = TokenPosition { line, column };
        Self { pos, kind }
    }

    /// Takes the text out of a string token.
    pub fn get_string(self) -> (text: String)
        requires
            self.kind is String,
        ensures
            self.kind == TokenKind::String(text),
    {
        match self.kind {
            TokenKind::String(s) => s,
            _ => String::new(),
        }
    }
}

/// A JSON value.
#[derive(Debug, PartialEq)]
pub enum JsonElement {
    /// The literal `null`.
    Null,
    /// `true` or `false`.
    Boolean(bool),
    /// A number, held as the decimal literal that the source text wrote:
    /// an optional `-`, digits, an optional fraction and an optional
    /// exponent. Turning it into a machine number is left to the caller.
    Number(String),
    /// A string, with its escape sequences decoded.
    String(String),
    /// An array, in source order.
    Array(Vec<JsonElement>),
    /// An object: its key-value pairs in source order. No key occurs twice.
    Object(Vec<(String, JsonElement)>),
}

/// The view of a [`JsonElement`]: the tree as mathematical sequences.
pub enum JsonValue {
    Null,
    Boolean(bool),
    Number(Seq<char>),
    String(Seq<char>),
    Array(Seq<JsonValue>),
    Object(Seq<(Seq<char>, JsonValue)>),
}

/// The tree that `element` stands for: every text as a sequence of
/// characters, every array and object as a sequence of what it holds, in
/// the same order.
pub open spec fn value_of(element: JsonElement) -> JsonValue
    decreases element,
{
    match element {
        JsonElement::Null => JsonValue::Null,
        JsonElement::Boolean(b) => JsonValue::Boolean(b),
        JsonElement::Number(n) => JsonValue::Number(n@),
        JsonElement::String(s) => JsonValue::String(s@),
        JsonElement::Array(items) => JsonValue::Array(
            Seq::new(
                items@.len(),
                |i: int|
                    if 0 <= i < items@.len() {
                        value_of(items@[i])
                    } else {
                        JsonValue::Null
                    },
            ),
        ),
        JsonElement::Object(pairs) => JsonValue::Object(
            Seq::new(
                pairs@.len(),
                |i: int|
                    if 0 <= i < pairs@.len() {
                        (pairs@[i].0@, value_of(pairs@[i].1))
                    } else {
                        (Seq::<char>::empty(), JsonValue::Null)
                    },
            ),
        ),
    }
}

impl View for JsonElement {
    type V = JsonValue;

    open spec fn view(&self) -> JsonValue {
        value_of(*self)
    }
}

impl Clone for JsonElement {
    /// A deep copy: the same tree.
    fn clone(&self) -> (copy: Self)
        ensures
            copy@ == self@,
        decreases self,
    {
        match self {
            JsonElement::Null => JsonElement::Null,
            JsonElement::Boolean(b) => JsonElement::Boolean(*b),
            JsonElement::Number(n) => JsonElement::Number(n.clone()),
            JsonElement::String(s) => JsonElement::String(s.clone()),
            JsonElement::Array(items) => {
                let mut copies: Vec<JsonElement> = Vec::new();
                let mut i: usize = 0;
                while i < items.len()
                    invariant
                        i <= items.len(),
                        copies.len() == i,
                        forall|k: int| 0 <= k < i ==> (#[trigger] copies@[k])@ == items@[k]@,
                        forall|k: int|
                            0 <= k < items.len() ==> decreases_to!(*self => #[trigger] items@[k]),
                    decreases items.len() - i,
                {
                    let item = items[i].clone();
                    copies.push(item);
                    i += 1;
                }
                let copy = JsonElement::Array(copies);
                assert(copy@->Array_0 =~= self@->Array_0);
                copy
            },
            JsonElement::Object(pairs) => {
                let mut copies: Vec<(String, JsonElement)> = Vec::new();
                let mut i: usize = 0;
                while i < pairs.len()
                    invariant
                        i <= pairs.len(),
                        copies.len() == i,
                        forall|k: int|
                            0 <= k < i ==> (#[trigger] copies@[k]).0@ == pairs@[k].0@
                                && copies@[k].1@ == pairs@[k].1@,
                        forall|k: int|
                            0 <= k < pairs.len() ==> decreases_to!(*self => #[trigger] pairs@[k]),
                    decreases pairs.len() - i,
                {
                    let key = pairs[i].0.clone();
                    let value = pairs[i].1.clone();
                    copies.push((key, value));
                    i += 1;
                }
                let copy = JsonElement::Object(copies);
                assert(copy@->Object_0 =~= self@->Object_0);
                copy
            },
        }
    }
}

impl Default for JsonElement {
    fn default() -> (value: Self)
        ensures
            value == JsonElement::Null,
    {
        JsonElement::Null
    }
}

/// Whether `key` is the key of one of `pairs`.
pub open spec fn has_key(pairs: Seq<(Seq<char>, JsonValue)>, key: Seq<char>) -> bool {
    exists|i: int| 0 <= i < pairs.len() && (#[trigger] pairs[i]).0 == key
}

/// Whether no two of `pairs` have the same key.
pub open spec fn distinct_keys(pairs: Seq<(Seq<char>, JsonValue)>) -> bool {
    forall|i: int, j: int|
        0 <= i < j < pairs.len() ==> (#[trigger] pairs[i]).0 != (#[trigger] pairs[j]).0
}

impl JsonValue {
    /// The invariant of the value tree: every number of the tree is a number
    /// literal, and in every object of the tree, at any depth, the keys are
    /// pairwise distinct.
    pub open spec fn well_formed(self) -> bool
        decreases self,
    {
        match self {
            JsonValue::Number(n) => number_literal(n),
            JsonValue::Array(items) => forall|i: int|
                0 <= i < items.len() ==> (#[trigger] items[i]).well_formed(),
            JsonValue::Object(pairs) => {
                &&& distinct_keys(pairs)
                &&& forall|i: int| 0 <= i < pairs.len() ==> (#[trigger] pairs[i]).1.well_formed()
            },
            _ => true,
        }
    }
}

/// The values that `items` stand for, in the same order.
pub open spec fn values_of(items: Seq<JsonElement>) -> Seq<JsonValue> {
    Seq::new(items.len(), |i: int| value_of(items[i]))
}

/// The members that `pairs` stand for, in the same order.
pub open spec fn members_of(pairs: Seq<(String, JsonElement)>) -> Seq<(Seq<char>, JsonValue)> {
    Seq::new(pairs.len(), |i: int| (pairs[i].0@, value_of(pairs[i].1)))
}

/// An array stands for the values of its items.
pub proof fn lemma_array_view(items: Vec<JsonElement>)
    ensures
        JsonElement::Array(items)@ == JsonValue::Array(values_of(items@)),
{
    assert(JsonElement::Array(items)@->Array_0 =~= values_of(items@));
}

/// An object stands for the members of its pairs.
pub proof fn lemma_object_view(pairs: Vec<(String, JsonElement)>)
    ensures
        JsonElement::Object(pairs)@ == JsonValue::Object(members_of(pairs@)),
{
    assert(JsonElement::Object(pairs)@->Object_0 =~= members_of(pairs@));
}

/// One more item stands for one more value.
pub proof fn lemma_values_push(items: Seq<JsonElement>, item: JsonElement)
    ensures
        values_of(items.push(item)) == values_of(items).push(item@),
{
    assert(values_of(items.push(item)) =~= values_of(items).push(item@));
}

/// One more pair stands for one more member.
pub proof fn lemma_members_push(pairs: Seq<(String, JsonElement)>, key: String, value: JsonElement)
    ensures
        members_of(pairs.push((key, value))) == members_of(pairs).push((key@, value@)),
{
    assert(members_of(pairs.push((key, value))) =~= members_of(pairs).push((key@, value@)));
}

} // verus!
