//! The parser's behaviour as mathematical functions over the source bytes.
//!
//! Every function takes the source bytes `b`, the options where they matter,
//! and a [`ParseState`] (position, comments so far, errors so far), and gives
//! back the state after the step together with what the step produced. The
//! functions that can reach a string return `None` exactly where the parser
//! would slice the source inside a character (an escape such as `\é` whose
//! escaped byte is not ASCII), which is the one input class it cannot handle.
use vstd::prelude::*;
use vstd::utf8::*;

use crate::ast::{CommentView, JsonBool, JsonCommentKind, NumView, PropView, Span, StrView, ValueView};
use crate::parser::JsonParseOptions;

verus! {

/// An error the parser reports: its message and the byte range it points at.
pub struct ErrorView {
    pub message: Seq<char>,
    pub start: int,
    pub end: int,
}

/// The parser's state between two steps.
pub struct ParseState {
    pub pos: int,
    pub comments: Seq<CommentView>,
    pub errors: Seq<ErrorView>,
}

/// What parsing a whole source yields.
pub struct ParseOutcome {
    pub value: ValueView,
    pub comments: Seq<CommentView>,
    pub errors: Seq<ErrorView>,
}

// ASCII bytes the grammar names.
/// ' '
pub const SPACE: u8 = 0x20;
/// '\t'
pub const TAB: u8 = 0x09;
/// '\n'
pub const LF: u8 = 0x0a;
/// '\r'
pub const CR: u8 = 0x0d;
/// '/'
pub const SLASH: u8 = 0x2f;
/// '*'
pub const STAR: u8 = 0x2a;
/// '"'
pub const QUOTE: u8 = 0x22;
/// '\\'
pub const BACKSLASH: u8 = 0x5c;
/// '{'
pub const LBRACE: u8 = 0x7b;
/// '}'
pub const RBRACE: u8 = 0x7d;
/// '['
pub const LBRACKET: u8 = 0x5b;
/// ']'
pub const RBRACKET: u8 = 0x5d;
/// ','
pub const COMMA: u8 = 0x2c;
/// ':'
pub const COLON: u8 = 0x3a;
/// '-'
pub const MINUS: u8 = 0x2d;
/// '+'
pub const PLUS: u8 = 0x2b;
/// '.'
pub const DOT: u8 = 0x2e;
/// '0'
pub const DIGIT_ZERO: u8 = 0x30;
/// '9'
pub const DIGIT_NINE: u8 = 0x39;
/// 'a'
pub const LOWER_A: u8 = 0x61;
/// 'A'
pub const UPPER_A: u8 = 0x41;
/// 'F'
pub const UPPER_F: u8 = 0x46;
/// 'z'
pub const LOWER_Z: u8 = 0x7a;
/// 'Z'
pub const UPPER_Z: u8 = 0x5a;
/// 'b'
pub const LOWER_B: u8 = 0x62;
/// 'r'
pub const LOWER_R: u8 = 0x72;
/// 'e'
pub const LOWER_E: u8 = 0x65;
/// 'E'
pub const UPPER_E: u8 = 0x45;
/// 'u'
pub const LOWER_U: u8 = 0x75;
/// 't'
pub const LOWER_T: u8 = 0x74;
/// 'f'
pub const LOWER_F: u8 = 0x66;
/// 'n'
pub const LOWER_N: u8 = 0x6e;

// ---------------------------------------------------------------------------
// Small helpers
// ---------------------------------------------------------------------------

pub open spec fn span_of(start: int, end: int) -> Span {
    Span { start: start as u32, end: end as u32 }
}

pub open spec fn peek_at(b: Seq<u8>, p: int) -> Option<u8> {
    if 0 <= p < b.len() {
        Some(b[p])
    } else {
        None
    }
}

pub open spec fn at_pos(st: ParseState, p: int) -> ParseState {
    ParseState { pos: p, ..st }
}

pub open spec fn with_error(st: ParseState, message: Seq<char>, start: int, end: int) -> ParseState {
    ParseState { errors: st.errors.push(ErrorView { message, start, end }), ..st }
}

pub open spec fn with_comment(st: ParseState, c: CommentView) -> ParseState {
    ParseState { comments: st.comments.push(c), ..st }
}

pub open spec fn advance(b: Seq<u8>, st: ParseState) -> ParseState {
    if st.pos < b.len() {
        at_pos(st, st.pos + 1)
    } else {
        st
    }
}

pub open spec fn is_ws(c: u8) -> bool {
    c == 0x20 || c == 0x09 || c == 0x0a || c == 0x0d
}

pub open spec fn is_digit(c: u8) -> bool {
    0x30 <= c <= 0x39
}

pub open spec fn is_alpha(c: u8) -> bool {
    (0x41 <= c <= 0x5a) || (0x61 <= c <= 0x7a)
}

pub open spec fn is_hex(c: u8) -> bool {
    is_digit(c) || (0x61 <= c <= 0x66) || (0x41 <= c <= 0x46)
}

pub open spec fn hex_value(c: u8) -> int {
    if is_digit(c) {
        c - 0x30
    } else if 0x61 <= c <= 0x66 {
        c - 0x61 + 10
    } else {
        c - 0x41 + 10
    }
}

/// Whether the two bytes `c1 c2` stand at `p`.
pub open spec fn starts_with2(b: Seq<u8>, p: int, c1: u8, c2: u8) -> bool {
    0 <= p && p + 2 <= b.len() && b[p] == c1 && b[p + 1] == c2
}

/// The message `<prefix><c><suffix>`.
pub open spec fn msg_with_char(prefix: Seq<char>, c: char, suffix: Seq<char>) -> Seq<char> {
    prefix + seq![c] + suffix
}

/// The character that a one-letter escape `\e` stands for.
pub open spec fn simple_escape(e: u8) -> Option<char> {
    if e == 0x22 {
        Some('"')
    } else if e == 0x5c {
        Some('\\')
    } else if e == 0x2f {
        Some('/')
    } else if e == 0x62 {
        Some('\u{8}')
    } else if e == 0x66 {
        Some('\u{c}')
    } else if e == 0x6e {
        Some('\n')
    } else if e == 0x72 {
        Some('\r')
    } else if e == 0x74 {
        Some('\t')
    } else {
        None
    }
}

/// The character with scalar value `v`, if `v` is one (what `char::from_u32` gives).
pub open spec fn scalar_char(v: int) -> Option<char> {
    if (0 <= v < 0xD800) || (0xE000 <= v <= 0x10FFFF) {
        Some(v as char)
    } else {
        None
    }
}

// ---------------------------------------------------------------------------
// Scanning
// ---------------------------------------------------------------------------

/// The first position at or after `p` that does not hold whitespace.
pub open spec fn skip_ws(b: Seq<u8>, p: int) -> int
    decreases b.len() - p,
{
    if 0 <= p < b.len() && is_ws(b[p]) {
        skip_ws(b, p + 1)
    } else {
        p
    }
}

/// The first position at or after `p` holding a newline, or the end.
pub open spec fn scan_line(b: Seq<u8>, p: int) -> int
    decreases b.len() - p,
{
    if 0 <= p < b.len() && b[p] != 0x0a {
        scan_line(b, p + 1)
    } else {
        p
    }
}

/// The first position `q >= p` where `*/` starts, or where `q + 1` reaches the end.
pub open spec fn scan_block(b: Seq<u8>, p: int) -> int
    decreases b.len() - p,
{
    if 0 <= p && p + 1 < b.len() && !(b[p] == 0x2a && b[p + 1] == 0x2f) {
        scan_block(b, p + 1)
    } else {
        p
    }
}

/// The first position at or after `p` that does not hold an ASCII digit.
pub open spec fn scan_digits(b: Seq<u8>, p: int) -> int
    decreases b.len() - p,
{
    if 0 <= p < b.len() && is_digit(b[p]) {
        scan_digits(b, p + 1)
    } else {
        p
    }
}

/// The first position at or after `p` that does not hold an ASCII letter.
pub open spec fn scan_alpha(b: Seq<u8>, p: int) -> int
    decreases b.len() - p,
{
    if 0 <= p < b.len() && is_alpha(b[p]) {
        scan_alpha(b, p + 1)
    } else {
        p
    }
}

/// The first position at or after `p` that does not hold a UTF-8 continuation byte.
pub open spec fn scan_continuation(b: Seq<u8>, p: int) -> int
    decreases b.len() - p,
{
    if 0 <= p < b.len() && b[p] & 0xC0 == 0x80 {
        scan_continuation(b, p + 1)
    } else {
        p
    }
}

/// The first position at or after `p` holding a quote or a backslash, or the end.
pub open spec fn scan_plain(b: Seq<u8>, p: int) -> int
    decreases b.len() - p,
{
    if 0 <= p < b.len() && b[p] != 0x22 && b[p] != 0x5c {
        scan_plain(b, p + 1)
    } else {
        p
    }
}

// ---------------------------------------------------------------------------
// Comments and trivia
// ---------------------------------------------------------------------------

/// A `//` comment starting at `st.pos`.
pub open spec fn line_comment(b: Seq<u8>, st: ParseState) -> ParseState {
    let start = st.pos;
    let end = scan_line(b, start + 2);
    at_pos(
        with_comment(
            st,
            CommentView {
                span: span_of(start, end),
                value: b.subrange(start + 2, end),
                kind: JsonCommentKind::Line,
            },
        ),
        end,
    )
}

/// A `/*` comment starting at `st.pos`.
pub open spec fn block_comment(b: Seq<u8>, st: ParseState) -> ParseState {
    let start = st.pos;
    let q = scan_block(b, start + 2);
    if q + 1 >= b.len() {
        with_error(at_pos(st, q), "Unterminated block comment"@, start, q)
    } else {
        at_pos(
            with_comment(
                st,
                CommentView {
                    span: span_of(start, q + 2),
                    value: b.subrange(start + 2, q),
                    kind: JsonCommentKind::Block,
                },
            ),
            q + 2,
        )
    }
}

/// Skips whitespace and comments; without `allow_comments` each comment is
/// still skipped and recorded, and also reported as an error.
pub open spec fn skip_trivia(b: Seq<u8>, o: JsonParseOptions, st: ParseState) -> ParseState
    decreases b.len() - st.pos,
{
    let p = skip_ws(b, st.pos);
    let st1 = at_pos(st, p);
    let line = starts_with2(b, p, 0x2f, 0x2f);
    let block = starts_with2(b, p, 0x2f, 0x2a);
    if line || block {
        let st2 = if o.allow_comments {
            st1
        } else {
            with_error(st1, "Comments are not allowed in JSON"@, p, p + 2)
        };
        let st3 = if line {
            line_comment(b, st2)
        } else {
            block_comment(b, st2)
        };
        if st.pos < st3.pos <= b.len() {
            skip_trivia(b, o, st3)
        } else {
            st3
        }
    } else {
        st1
    }
}

// ---------------------------------------------------------------------------
// Tokens
// ---------------------------------------------------------------------------

/// `count` hex digits more, after `done` already read into `acc`; the escape began at `start`.
pub open spec fn hex4_from(b: Seq<u8>, st: ParseState, start: int, done: int, acc: int) -> (
    Option<int>,
    ParseState,
)
    decreases 4 - done,
{
    if done >= 4 {
        (Some(acc), st)
    } else {
        match peek_at(b, st.pos) {
            Some(c) => if is_hex(c) {
                hex4_from(b, at_pos(st, st.pos + 1), start, done + 1, acc * 16 + hex_value(c))
            } else {
                (None, with_error(st, "Expected 4 hex digits after \\u"@, start, st.pos))
            },
            None => (None, with_error(st, "Expected 4 hex digits after \\u"@, start, st.pos)),
        }
    }
}

/// Four hex digits at `st.pos`.
pub open spec fn hex4(b: Seq<u8>, st: ParseState) -> (Option<int>, ParseState) {
    hex4_from(b, st, st.pos, 0, 0)
}

/// A number starting at `st.pos`.
pub open spec fn number(b: Seq<u8>, st: ParseState) -> (NumView, ParseState) {
    let start = st.pos;
    let p1 = if peek_at(b, start) == Some(0x2du8) {
        start + 1
    } else {
        start
    };
    let (p2, st2) = if peek_at(b, p1) == Some(0x30u8) {
        let q = p1 + 1;
        if 0 <= q < b.len() && is_digit(b[q]) {
            (q, with_error(st, "Leading zeros are not allowed"@, start, q + 1))
        } else {
            (q, st)
        }
    } else {
        (scan_digits(b, p1), st)
    };
    let p3 = if peek_at(b, p2) == Some(0x2eu8) {
        scan_digits(b, p2 + 1)
    } else {
        p2
    };
    let p4 = if peek_at(b, p3) == Some(0x65u8) || peek_at(b, p3) == Some(0x45u8) {
        let q = if peek_at(b, p3 + 1) == Some(0x2bu8) || peek_at(b, p3 + 1) == Some(0x2du8) {
            p3 + 2
        } else {
            p3 + 1
        };
        scan_digits(b, q)
    } else {
        p3
    };
    (NumView { span: span_of(start, p4), raw: b.subrange(start, p4) }, at_pos(st2, p4))
}

/// Whether `word` stands at `p`.
pub open spec fn word_at(b: Seq<u8>, p: int, word: Seq<u8>) -> bool {
    0 <= p && p + word.len() <= b.len() && b.subrange(p, p + word.len()) == word
}

pub open spec fn true_word() -> Seq<u8> {
    seq![0x74u8, 0x72u8, 0x75u8, 0x65u8]
}

pub open spec fn false_word() -> Seq<u8> {
    seq![0x66u8, 0x61u8, 0x6cu8, 0x73u8, 0x65u8]
}

pub open spec fn null_word() -> Seq<u8> {
    seq![0x6eu8, 0x75u8, 0x6cu8, 0x6cu8]
}

/// The position after trying to read `word` at `p`: past the word where it
/// stands there, else past the run of ASCII letters at `p`.
pub open spec fn word_end(b: Seq<u8>, p: int, word: Seq<u8>) -> int {
    if word_at(b, p, word) {
        p + word.len()
    } else {
        scan_alpha(b, p)
    }
}

/// `true`, `false` or `null` expected at `st.pos`.
pub open spec fn literal(b: Seq<u8>, st: ParseState, word: Seq<u8>, message: Seq<char>, value: Option<bool>) -> (
    ValueView,
    ParseState,
) {
    let start = st.pos;
    let end = word_end(b, start, word);
    if word_at(b, start, word) {
        match value {
            Some(v) => (ValueView::Bool(JsonBool { span: span_of(start, end), value: v }), at_pos(st, end)),
            None => (ValueView::Null(span_of(start, end)), at_pos(st, end)),
        }
    } else {
        (ValueView::Null(span_of(start, end)), with_error(at_pos(st, end), message, start, end))
    }
}

/// The rest of a string holding an escape: `st.pos` is inside the string,
/// `buf` holds what was decoded so far.
pub open spec fn string_rest(b: Seq<u8>, st: ParseState, start: int, buf: Seq<char>) -> Option<
    (StrView, ParseState),
>
    decreases b.len() - st.pos,
{
    let p = st.pos;
    let cs = start + 1;
    if !(0 <= p < b.len()) {
        Some(
            (
                StrView { span: span_of(start, p), raw: b.subrange(cs, p), value: buf, borrowed: false },
                with_error(st, "Unterminated string"@, start, p),
            ),
        )
    } else if b[p] == 0x22 {
        Some(
            (
                StrView { span: span_of(start, p + 1), raw: b.subrange(cs, p), value: buf, borrowed: false },
                at_pos(st, p + 1),
            ),
        )
    } else if b[p] == 0x5c {
        let p1 = p + 1;
        if p1 >= b.len() {
            Some(
                (
                    StrView { span: span_of(start, p1), raw: b.subrange(cs, p1), value: buf, borrowed: false },
                    with_error(at_pos(st, p1), "Unterminated string"@, start, p1),
                ),
            )
        } else {
            let e = b[p1];
            if simple_escape(e) is Some {
                string_rest(b, at_pos(st, p1 + 1), start, buf.push(simple_escape(e)->0))
            } else if e == 0x75 {
                let (cp, st3) = hex4(b, at_pos(st, p1 + 1));
                let (buf4, st4) = escape_unicode(b, cp, st3, buf);
                if p < st4.pos <= b.len() {
                    string_rest(b, st4, start, buf4)
                } else {
                    None
                }
            } else if e >= 0x80 {
                None
            } else {
                string_rest(
                    b,
                    with_error(
                        at_pos(st, p1 + 1),
                        msg_with_char("Invalid escape sequence '\\"@, e as char, "'"@),
                        p1 - 1,
                        p1 + 1,
                    ),
                    start,
                    buf.push(e as char),
                )
            }
        }
    } else {
        let next = scan_continuation(b, p + 1);
        if p < next <= b.len() {
            string_rest(b, at_pos(st, next), start, buf + decode_utf8(b.subrange(p, next)))
        } else {
            None
        }
    }
}

/// What a `\uXXXX` escape whose digits gave `cp` adds, and the state after it
/// (reading a second escape after a high surrogate).
pub open spec fn escape_unicode(b: Seq<u8>, cp: Option<int>, st: ParseState, buf: Seq<char>) -> (
    Seq<char>,
    ParseState,
) {
    match cp {
        Some(high) => if 0xD800 <= high <= 0xDBFF {
            let p = st.pos;
            if peek_at(b, p) == Some(0x5cu8) && peek_at(b, p + 1) == Some(0x75u8) {
                let (cp2, st2) = hex4(b, at_pos(st, p + 2));
                match cp2 {
                    Some(low) => if 0xDC00 <= low <= 0xDFFF {
                        let combined = 0x10000 + (high - 0xD800) * 1024 + (low - 0xDC00);
                        match scalar_char(combined) {
                            Some(c) => (buf.push(c), st2),
                            None => (buf, with_error(st2, "Invalid surrogate pair"@, st2.pos - 12, st2.pos)),
                        }
                    } else {
                        (buf, with_error(st2, "Expected low surrogate (\\uDC00-\\uDFFF)"@, st2.pos - 6, st2.pos))
                    },
                    None => (buf, with_error(st2, "Expected low surrogate (\\uDC00-\\uDFFF)"@, st2.pos - 6, st2.pos)),
                }
            } else {
                let st2 = if peek_at(b, p) == Some(0x5cu8) {
                    at_pos(st, p + 1)
                } else {
                    st
                };
                (buf, with_error(st2, "Unpaired high surrogate"@, st2.pos - 6, st2.pos))
            }
        } else if 0xDC00 <= high <= 0xDFFF {
            (buf, with_error(st, "Unpaired low surrogate"@, st.pos - 4, st.pos))
        } else {
            match scalar_char(high) {
                Some(c) => (buf.push(c), st),
                None => (buf, with_error(st, "Invalid unicode code point"@, st.pos - 4, st.pos)),
            }
        },
        None => (buf, st),
    }
}

/// A string starting (at its opening quote) at `st.pos`.
pub open spec fn string(b: Seq<u8>, st: ParseState) -> Option<(StrView, ParseState)> {
    let start = st.pos;
    let cs = start + 1;
    let q = scan_plain(b, cs);
    if !(0 <= q < b.len()) {
        Some(
            (
                StrView {
                    span: span_of(start, q),
                    raw: b.subrange(cs, q),
                    value: decode_utf8(b.subrange(cs, q)),
                    borrowed: true,
                },
                with_error(at_pos(st, q), "Unterminated string"@, start, q),
            ),
        )
    } else if b[q] == 0x22 {
        Some(
            (
                StrView {
                    span: span_of(start, q + 1),
                    raw: b.subrange(cs, q),
                    value: decode_utf8(b.subrange(cs, q)),
                    borrowed: true,
                },
                at_pos(st, q + 1),
            ),
        )
    } else {
        string_rest(b, at_pos(st, q), start, decode_utf8(b.subrange(cs, q)))
    }
}

// ---------------------------------------------------------------------------
// Values
// ---------------------------------------------------------------------------

/// A trailing-comma check after the `,` of a list closed by `close`; it only
/// runs (skipping trivia) when trailing commas are not allowed.
pub open spec fn after_comma(b: Seq<u8>, o: JsonParseOptions, st: ParseState, close: u8) -> ParseState {
    if o.allow_trailing_commas {
        st
    } else {
        let st1 = skip_trivia(b, o, st);
        if peek_at(b, st1.pos) == Some(close) {
            with_error(st1, "Trailing commas are not allowed in JSON"@, st1.pos - 1, st1.pos)
        } else {
            st1
        }
    }
}

/// A value at the first non-trivia position at or after `st.pos`.
pub open spec fn value(b: Seq<u8>, o: JsonParseOptions, st: ParseState) -> Option<(ValueView, ParseState)>
    decreases b.len() - st.pos, 3int,
{
    let st1 = skip_trivia(b, o, st);
    let p = st1.pos;
    if !(st.pos <= p <= b.len()) {
        None
    } else {
        match peek_at(b, p) {
            Some(c) => {
                if c == 0x22 {
                    match string(b, st1) {
                        Some((s, st2)) => Some((ValueView::String(s), st2)),
                        None => None,
                    }
                } else if c == 0x7b {
                    object(b, o, st1)
                } else if c == 0x5b {
                    array(b, o, st1)
                } else if c == 0x74 {
                    Some(literal(b, st1, true_word(), "Expected 'true'"@, Some(true)))
                } else if c == 0x66 {
                    Some(literal(b, st1, false_word(), "Expected 'false'"@, Some(false)))
                } else if c == 0x6e {
                    Some(literal(b, st1, null_word(), "Expected 'null'"@, None))
                } else if c == 0x2d || is_digit(c) {
                    let (n, st2) = number(b, st1);
                    Some((ValueView::Number(n), st2))
                } else {
                    Some(
                        (
                            ValueView::Null(span_of(p, p + 1)),
                            with_error(
                                at_pos(st1, p + 1),
                                msg_with_char("Unexpected character '"@, c as char, "'"@),
                                p,
                                p + 1,
                            ),
                        ),
                    )
                }
            },
            None => Some(
                (ValueView::Null(span_of(p, p)), with_error(st1, "Unexpected end of input"@, p, p)),
            ),
        }
    }
}

/// An object whose `{` stands at `st.pos`.
pub open spec fn object(b: Seq<u8>, o: JsonParseOptions, st: ParseState) -> Option<(ValueView, ParseState)>
    decreases b.len() - st.pos, 2int,
{
    let start = st.pos;
    let st1 = skip_trivia(b, o, at_pos(st, start + 1));
    if !(start < st1.pos <= b.len()) {
        None
    } else {
        let props = if peek_at(b, st1.pos) != Some(0x7du8) {
            object_members(b, o, st1, Seq::empty())
        } else {
            Some((Seq::empty(), st1))
        };
        match props {
            Some((ps, st2)) => {
                let st3 = skip_trivia(b, o, st2);
                let st4 = if peek_at(b, st3.pos) == Some(0x7du8) {
                    at_pos(st3, st3.pos + 1)
                } else {
                    with_error(st3, "Expected '}'"@, st3.pos, st3.pos + 1)
                };
                Some((ValueView::Object(span_of(start, st4.pos), ps), st4))
            },
            None => None,
        }
    }
}

/// The members of an object from `st.pos` on, after `acc`.
pub open spec fn object_members(b: Seq<u8>, o: JsonParseOptions, st: ParseState, acc: Seq<PropView>) -> Option<
    (Seq<PropView>, ParseState),
>
    decreases b.len() - st.pos, 4int,
{
    let st1 = skip_trivia(b, o, st);
    let p = st1.pos;
    if !(st.pos <= p) {
        None
    } else if peek_at(b, p) == Some(0x7du8) {
        Some((acc, st1))
    } else if peek_at(b, p) != Some(0x22u8) {
        Some((acc, with_error(st1, "Expected property name"@, p, p + 1)))
    } else {
        match string(b, st1) {
            None => None,
            Some((key, st2)) => {
                let st3 = skip_trivia(b, o, st2);
                if peek_at(b, st3.pos) != Some(0x3au8) {
                    Some((acc, with_error(st3, "Expected ':'"@, st3.pos, st3.pos + 1)))
                } else {
                    let st4 = skip_trivia(b, o, at_pos(st3, st3.pos + 1));
                    if !(st.pos <= st4.pos <= b.len()) {
                        None
                    } else {
                        match value(b, o, st4) {
                            None => None,
                            Some((v, st5)) => {
                                let acc2 = acc.push(
                                    PropView { span: span_of(p, st5.pos), key, value: v },
                                );
                                let st6 = skip_trivia(b, o, st5);
                                if peek_at(b, st6.pos) == Some(0x2cu8) {
                                    let st7 = after_comma(b, o, at_pos(st6, st6.pos + 1), 0x7d);
                                    if st.pos < st7.pos <= b.len() {
                                        object_members(b, o, st7, acc2)
                                    } else {
                                        None
                                    }
                                } else {
                                    Some((acc2, st6))
                                }
                            },
                        }
                    }
                }
            },
        }
    }
}

/// An array whose `[` stands at `st.pos`.
pub open spec fn array(b: Seq<u8>, o: JsonParseOptions, st: ParseState) -> Option<(ValueView, ParseState)>
    decreases b.len() - st.pos, 2int,
{
    let start = st.pos;
    let st1 = skip_trivia(b, o, at_pos(st, start + 1));
    if !(start < st1.pos <= b.len()) {
        None
    } else {
        let elems = if peek_at(b, st1.pos) != Some(0x5du8) {
            array_elements(b, o, st1, Seq::empty())
        } else {
            Some((Seq::empty(), st1))
        };
        match elems {
            Some((es, st2)) => {
                let st3 = skip_trivia(b, o, st2);
                let st4 = if peek_at(b, st3.pos) == Some(0x5du8) {
                    at_pos(st3, st3.pos + 1)
                } else {
                    with_error(st3, "Expected ']'"@, st3.pos, st3.pos + 1)
                };
                Some((ValueView::Array(span_of(start, st4.pos), es), st4))
            },
            None => None,
        }
    }
}

/// The elements of an array from `st.pos` on, after `acc`.
pub open spec fn array_elements(b: Seq<u8>, o: JsonParseOptions, st: ParseState, acc: Seq<ValueView>) -> Option<
    (Seq<ValueView>, ParseState),
>
    decreases b.len() - st.pos, 4int,
{
    let st1 = skip_trivia(b, o, st);
    let p = st1.pos;
    if !(st.pos <= p <= b.len()) {
        None
    } else if peek_at(b, p) == Some(0x5du8) {
        Some((acc, st1))
    } else {
        match value(b, o, st1) {
            None => None,
            Some((v, st2)) => {
                let acc2 = acc.push(v);
                let st3 = skip_trivia(b, o, st2);
                if peek_at(b, st3.pos) == Some(0x2cu8) {
                    let st4 = after_comma(b, o, at_pos(st3, st3.pos + 1), 0x5d);
                    if st.pos < st4.pos <= b.len() {
                        array_elements(b, o, st4, acc2)
                    } else {
                        None
                    }
                } else {
                    Some((acc2, st3))
                }
            },
        }
    }
}

/// The initial state.
pub open spec fn initial_state() -> ParseState {
    ParseState { pos: 0, comments: Seq::empty(), errors: Seq::empty() }
}

/// Parsing the whole source `b`: one value, surrounded by trivia, then the end.
pub open spec fn parse_outcome(b: Seq<u8>, o: JsonParseOptions) -> Option<ParseOutcome> {
    let st1 = skip_trivia(b, o, initial_state());
    match value(b, o, st1) {
        None => None,
        Some((v, st2)) => {
            let st3 = skip_trivia(b, o, st2);
            let st4 = if st3.pos < b.len() {
                with_error(st3, "Unexpected content after JSON value"@, st3.pos, st3.pos + 1)
            } else {
                st3
            };
            Some(ParseOutcome { value: v, comments: st4.comments, errors: st4.errors })
        },
    }
}

} // verus!
