use std::borrow::Cow;
use vstd::prelude::*;
use vstd::string::StringSliceAdditionalSpecFns;

use crate::text::str_eq;

verus! {

/// A byte range `[start, end)` of the source text.
#[derive(Debug, Clone, Copy, PartialEq, Eq, Structural)]
pub struct Span {
    /// The zero-based start offset of the span.
    pub start: u32,
    /// The zero-based end offset of the span.
    pub end: u32,
}

impl Span {
    pub fn new(start: u32, end: u32) -> (r: Span)
        ensures
            r.start == start,
            r.end == end,
    {
        Span { start, end }
    }
}

/// A parsed JSON value with source span information.
#[derive(Debug, PartialEq)]
pub enum JsonValue<'a> {
    Object(JsonObject<'a>),
    Array(JsonArray<'a>),
    String(JsonString<'a>),
    Number(JsonNumber<'a>),
    Bool(JsonBool),
    Null(Span),
}

/// A JSON object: `{ "key": value, ... }`
#[derive(Debug, PartialEq)]
pub struct JsonObject<'a> {
    pub span: Span,
    pub properties: Vec<JsonProperty<'a>>,
}

/// A JSON array: `[value, ...]`
#[derive(Debug, PartialEq)]
pub struct JsonArray<'a> {
    pub span: Span,
    pub elements: Vec<JsonValue<'a>>,
}

/// A key-value pair in a JSON object.
#[derive(Debug, PartialEq)]
pub struct JsonProperty<'a> {
    /// Span covering the entire property (key + colon + value).
    pub span: Span,
    pub key: JsonString<'a>,
    pub value: JsonValue<'a>,
}

/// A JSON string value with its source span.
#[derive(Debug, PartialEq)]
pub struct JsonString<'a> {
    /// Span covering the entire string including quotes.
    pub span: Span,
    /// The raw string content between quotes (preserves escape sequences as written).
    pub raw: &'a str,
    /// The decoded string value (escape sequences resolved).
    /// Borrows from source when no escape sequences are present.
    pub value: Cow<'a, str>,
}

/// A JSON number value with its source span.
#[derive(Debug, Clone, PartialEq)]
pub struct JsonNumber<'a> {
    /// Span covering the number literal.
    pub span: Span,
    /// The raw number text.
    pub raw: &'a str,
}

/// A JSON boolean value with its source span.
#[derive(Debug, Clone, Copy, PartialEq, Eq, Structural)]
pub struct JsonBool {
    pub span: Span,
    pub value: bool,
}

/// The kind of a JSONC comment.
#[derive(Debug, Clone, Copy, PartialEq, Eq, Structural)]
pub enum JsonCommentKind {
    /// `// ...`
    Line,
    /// `/* ... */`
    Block,
}

/// A JSONC comment with its source span.
#[derive(Debug, Clone, PartialEq)]
pub struct JsonComment<'a> {
    pub span: Span,
    pub value: &'a str,
    pub kind: JsonCommentKind,
}

// ---------------------------------------------------------------------------
// Mathematical views of the tree. Text taken from the source is viewed as its
// UTF-8 bytes; decoded string values are viewed as characters.
// ---------------------------------------------------------------------------

/// The view of a string token.
pub struct StrView {
    pub span: Span,
    /// The bytes between the quotes, as written in the source.
    pub raw: Seq<u8>,
    /// The decoded characters.
    pub value: Seq<char>,
    /// Whether the decoded value borrows the source text.
    pub borrowed: bool,
}

/// The view of a number token.
pub struct NumView {
    pub span: Span,
    pub raw: Seq<u8>,
}

/// The view of a JSON value.
pub enum ValueView {
    Object(Span, Seq<PropView>),
    Array(Span, Seq<ValueView>),
    String(StrView),
    Number(NumView),
    Bool(JsonBool),
    Null(Span),
}

/// The view of an object property.
pub struct PropView {
    pub span: Span,
    pub key: StrView,
    pub value: ValueView,
}

/// The view of a comment.
pub struct CommentView {
    pub span: Span,
    /// The bytes of the comment's text, without its delimiters.
    pub value: Seq<u8>,
    pub kind: JsonCommentKind,
}

impl<'a> JsonString<'a> {
    pub open spec fn view(&self) -> StrView {
        StrView {
            span: self.span,
            raw: self.raw.spec_bytes(),
            value: self.value@,
            borrowed: self.value is Borrowed,
        }
    }
}

impl<'a> Clone for JsonString<'a> {
    /// A copy that keeps the span, the raw text, the decoded text, and
    /// whether that text borrows the source.
    fn clone(&self) -> (r: Self)
        ensures
            r.view() == self.view(),
    {
        let value = match &self.value {
            Cow::Borrowed(s) => Cow::Borrowed(*s),
            Cow::Owned(s) => Cow::Owned(s.clone()),
        };
        JsonString { span: self.span, raw: self.raw, value }
    }
}

impl<'a> JsonNumber<'a> {
    pub open spec fn view(&self) -> NumView {
        NumView { span: self.span, raw: self.raw.spec_bytes() }
    }
}

impl<'a> JsonComment<'a> {
    pub open spec fn view(&self) -> CommentView {
        CommentView { span: self.span, value: self.value.spec_bytes(), kind: self.kind }
    }
}

pub open spec fn value_view<'a>(v: JsonValue<'a>) -> ValueView
    decreases v,
{
    match v {
        JsonValue::Object(o) => ValueView::Object(o.span, props_view(o.properties@)),
        JsonValue::Array(a) => ValueView::Array(a.span, values_view(a.elements@)),
        JsonValue::String(s) => ValueView::String(s.view()),
        JsonValue::Number(n) => ValueView::Number(n.view()),
        JsonValue::Bool(b) => ValueView::Bool(b),
        JsonValue::Null(s) => ValueView::Null(s),
    }
}

pub open spec fn values_view<'a>(s: Seq<JsonValue<'a>>) -> Seq<ValueView>
    decreases s,
{
    if s.len() == 0 {
        Seq::empty()
    } else {
        values_view(s.drop_last()).push(value_view(s.last()))
    }
}

pub open spec fn props_view<'a>(s: Seq<JsonProperty<'a>>) -> Seq<PropView>
    decreases s,
{
    if s.len() == 0 {
        Seq::empty()
    } else {
        props_view(s.drop_last()).push(prop_view(s.last()))
    }
}

pub open spec fn prop_view<'a>(p: JsonProperty<'a>) -> PropView
    decreases p,
{
    PropView { span: p.span, key: p.key.view(), value: value_view(p.value) }
}

pub open spec fn comments_view<'a>(s: Seq<JsonComment<'a>>) -> Seq<CommentView> {
    s.map_values(|c: JsonComment<'a>| c.view())
}

/// A deep copy of `v`, equal in view.
fn copy_value<'a>(v: &JsonValue<'a>) -> (r: JsonValue<'a>)
    ensures
        value_view(r) == value_view(*v),
    decreases *v, 1int,
{
    match v {
        JsonValue::Object(o) => JsonValue::Object(copy_object(o)),
        JsonValue::Array(a) => JsonValue::Array(copy_array(a)),
        JsonValue::String(s) => JsonValue::String(s.clone()),
        JsonValue::Number(n) => JsonValue::Number(JsonNumber { span: n.span, raw: n.raw }),
        JsonValue::Bool(b) => JsonValue::Bool(*b),
        JsonValue::Null(s) => JsonValue::Null(*s),
    }
}

/// A deep copy of `o`, equal in view.
fn copy_object<'a>(o: &JsonObject<'a>) -> (r: JsonObject<'a>)
    ensures
        r.span == o.span,
        props_view(r.properties@) == props_view(o.properties@),
    decreases *o, 0int,
{
    let n = o.properties.len();
    let mut props: Vec<JsonProperty<'a>> = Vec::new();
    let mut i: usize = 0;
    while i < n
        invariant
            n == o.properties@.len(),
            0 <= i <= n,
            props_view(props@) == props_view(o.properties@.take(i as int)),
        decreases n - i,
    {
        let p = &o.properties[i];
        proof {
            assert(decreases_to!(*o => o.properties));
            assert(decreases_to!(o.properties => o.properties@));
            assert(decreases_to!(o.properties@ => o.properties@[i as int]));
            assert(decreases_to!(o.properties@[i as int] => o.properties@[i as int].value));
        }
        let v = copy_value(&p.value);
        let q = JsonProperty { span: p.span, key: p.key.clone(), value: v };
        proof {
            let t = o.properties@.take(i + 1);
            assert(t.drop_last() =~= o.properties@.take(i as int));
            assert(t.last() == *p);
            assert(prop_view(q) == prop_view(*p));
            assert(props@.push(q).drop_last() =~= props@);
            assert(props_view(props@.push(q)) == props_view(props@).push(prop_view(q)));
            assert(props_view(t) == props_view(t.drop_last()).push(prop_view(t.last())));
        }
        props.push(q);
        i += 1;
    }
    proof {
        assert(o.properties@.take(n as int) =~= o.properties@);
    }
    JsonObject { span: o.span, properties: props }
}

/// A deep copy of `a`, equal in view.
fn copy_array<'a>(a: &JsonArray<'a>) -> (r: JsonArray<'a>)
    ensures
        r.span == a.span,
        values_view(r.elements@) == values_view(a.elements@),
    decreases *a, 0int,
{
    let n = a.elements.len();
    let mut elems: Vec<JsonValue<'a>> = Vec::new();
    let mut i: usize = 0;
    while i < n
        invariant
            n == a.elements@.len(),
            0 <= i <= n,
            values_view(elems@) == values_view(a.elements@.take(i as int)),
        decreases n - i,
    {
        proof {
            assert(decreases_to!(*a => a.elements));
            assert(decreases_to!(a.elements => a.elements@));
            assert(decreases_to!(a.elements@ => a.elements@[i as int]));
        }
        let v = copy_value(&a.elements[i]);
        proof {
            let t = a.elements@.take(i + 1);
            assert(t.drop_last() =~= a.elements@.take(i as int));
            assert(t.last() == a.elements@[i as int]);
            assert(elems@.push(v).drop_last() =~= elems@);
            assert(values_view(elems@.push(v)) == values_view(elems@).push(value_view(v)));
            assert(values_view(t) == values_view(t.drop_last()).push(value_view(t.last())));
        }
        elems.push(v);
        i += 1;
    }
    proof {
        assert(a.elements@.take(n as int) =~= a.elements@);
    }
    JsonArray { span: a.span, elements: elems }
}

impl<'a> Clone for JsonValue<'a> {
    /// A deep copy, equal in view.
    fn clone(&self) -> (r: Self)
        ensures
            value_view(r) == value_view(*self),
    {
        copy_value(self)
    }
}

impl<'a> Clone for JsonObject<'a> {
    /// A deep copy, equal in view.
    fn clone(&self) -> (r: Self)
        ensures
            r.span == self.span,
            props_view(r.properties@) == props_view(self.properties@),
    {
        copy_object(self)
    }
}

impl<'a> Clone for JsonArray<'a> {
    /// A deep copy, equal in view.
    fn clone(&self) -> (r: Self)
        ensures
            r.span == self.span,
            values_view(r.elements@) == values_view(self.elements@),
    {
        copy_array(self)
    }
}

impl<'a> Clone for JsonProperty<'a> {
    /// A deep copy, equal in view.
    fn clone(&self) -> (r: Self)
        ensures
            prop_view(r) == prop_view(*self),
    {
        JsonProperty { span: self.span, key: self.key.clone(), value: copy_value(&self.value) }
    }
}

/// The text that a decoded string value holds.
fn cow_text<'b>(c: &'b Cow<'_, str>) -> (r: &'b str)
    ensures
        r@ == c@,
{
    match c {
        Cow::Borrowed(b) => b,
        Cow::Owned(o) => o.as_str(),
    }
}

impl<'a> JsonValue<'a> {
    pub fn span(&self) -> (r: Span)
        ensures
            r == match *self {
                JsonValue::Object(o) => o.span,
                JsonValue::Array(a) => a.span,
                JsonValue::String(s) => s.span,
                JsonValue::Number(n) => n.span,
                JsonValue::Bool(b) => b.span,
                JsonValue::Null(span) => span,
            },
    {
        match self {
            Self::Object(o) => o.span,
            Self::Array(a) => a.span,
            Self::String(s) => s.span,
            Self::Number(n) => n.span,
            Self::Bool(b) => b.span,
            Self::Null(span) => *span,
        }
    }

    pub fn as_object(&self) -> (r: Option<&JsonObject<'a>>)
        ensures
            match *self {
                JsonValue::Object(o) => r == Some(&o),
                _ => r is None,
            },
    {
        match self {
            Self::Object(o) => Some(o),
            _ => None,
        }
    }

    pub fn as_array(&self) -> (r: Option<&JsonArray<'a>>)
        ensures
            match *self {
                JsonValue::Array(a) => r == Some(&a),
                _ => r is None,
            },
    {
        match self {
            Self::Array(a) => Some(a),
            _ => None,
        }
    }

    pub fn as_str(&self) -> (r: Option<&str>)
        ensures
            match *self {
                JsonValue::String(s) => r matches Some(t) && t@ == s.value@,
                _ => r is None,
            },
    {
        match self {
            Self::String(s) => Some(cow_text(&s.value)),
            _ => None,
        }
    }

    pub fn as_bool(&self) -> (r: Option<bool>)
        ensures
            match *self {
                JsonValue::Bool(b) => r == Some(b.value),
                _ => r is None,
            },
    {
        match self {
            Self::Bool(b) => Some(b.value),
            _ => None,
        }
    }
}

impl<'a> JsonObject<'a> {
    /// Whether the `i`-th property has the key `key`.
    pub open spec fn key_at(&self, i: int, key: Seq<char>) -> bool {
        self.properties@[i].key.value@ == key
    }

    /// Get a property by key name.
    pub fn get(&self, key: &str) -> (r: Option<&JsonProperty<'a>>)
        ensures
            match r {
                Some(p) => exists|i: int|
                    0 <= i < self.properties@.len() && self.properties@[i] == *p && #[trigger] self.key_at(i, key@)
                        && forall|j: int| 0 <= j < i ==> !#[trigger] self.key_at(j, key@),
                None => forall|i: int| 0 <= i < self.properties@.len() ==> !#[trigger] self.key_at(i, key@),
            },
    {
        let mut i: usize = 0;
        while i < self.properties.len()
            invariant
                0 <= i <= self.properties@.len(),
                forall|j: int| 0 <= j < i ==> !#[trigger] self.key_at(j, key@),
            decreases self.properties@.len() - i,
        {
            let p = &self.properties[i];
            if str_eq(cow_text(&p.key.value), key) {
                assert(self.key_at(i as int, key@));
                return Some(p);
            }
            i += 1;
        }
        None
    }

    /// Get the value of a property by key name.
    pub fn get_value(&self, key: &str) -> (r: Option<&JsonValue<'a>>)
        ensures
            match r {
                Some(v) => exists|i: int|
                    0 <= i < self.properties@.len() && self.properties@[i].value == *v
                        && #[trigger] self.key_at(i, key@) && forall|j: int|
                        0 <= j < i ==> !#[trigger] self.key_at(j, key@),
                None => forall|i: int| 0 <= i < self.properties@.len() ==> !#[trigger] self.key_at(i, key@),
            },
    {
        match self.get(key) {
            Some(p) => Some(&p.value),
            None => None,
        }
    }
}

} // verus!
