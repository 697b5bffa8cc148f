//! What the options change: only which comments and trailing commas are
//! reported. Under any options the parser reads the same value and the same
//! comments as in JSONC mode, and reports the same errors, with those the
//! options add in between.
use vstd::prelude::*;

use crate::{jsonc_options, strict_options};
use crate::laws::{
    lemma_after_comma, lemma_array_elements, lemma_block_comment, lemma_line_comment,
    lemma_object_members, lemma_skip_trivia, step, lemma_skip_ws, lemma_string, lemma_trivia_idempotent,
    lemma_value,
};
use crate::parser::JsonParseOptions;
use crate::semantics::{
    after_comma, array, array_elements, at_pos, block_comment, escape_unicode, false_word, hex4,
    hex4_from, hex_value, initial_state, is_digit, is_hex, line_comment, literal, msg_with_char,
    null_word, number, object, object_members, parse_outcome, peek_at, scan_continuation, scan_plain,
    simple_escape, skip_trivia, skip_ws, starts_with2, string, string_rest, true_word, value,
    with_error, ErrorView, ParseOutcome, ParseState, BACKSLASH, COLON, COMMA, LBRACE, LBRACKET,
    LOWER_F, LOWER_N, LOWER_T, LOWER_U, MINUS, QUOTE, RBRACE, RBRACKET, SLASH, STAR,
};
use crate::ast::{PropView, ValueView};
use vstd::utf8::*;

verus! {

/// Whether `e` is reported only because the options forbid what it points
/// at: a comment, or a trailing comma.
pub open spec fn option_error(e: ErrorView) -> bool {
    ||| e.message == "Comments are not allowed in JSON"@
    ||| e.message == "Trailing commas are not allowed in JSON"@
}

/// `es` without the errors that only the options decide on, the others kept
/// in their order.
pub open spec fn without_option_errors(es: Seq<ErrorView>) -> Seq<ErrorView>
    decreases es.len(),
{
    if es.len() == 0 {
        es
    } else {
        let kept = without_option_errors(es.drop_last());
        if option_error(es.last()) {
            kept
        } else {
            kept.push(es.last())
        }
    }
}

/// `st` without the errors that only the options decide on.
pub open spec fn lenient(st: ParseState) -> ParseState {
    ParseState { errors: without_option_errors(st.errors), ..st }
}

/// What a step that may fail gives, without the errors that only the options
/// decide on.
pub open spec fn lenient_after<T>(r: Option<(T, ParseState)>) -> Option<(T, ParseState)> {
    match r {
        Some((x, st)) => Some((x, lenient(st))),
        None => None,
    }
}

proof fn lemma_lenient_push(st: ParseState, e: ErrorView)
    ensures
        without_option_errors(st.errors.push(e)) == if option_error(e) {
            without_option_errors(st.errors)
        } else {
            without_option_errors(st.errors).push(e)
        },
{
    let es = st.errors.push(e);
    assert(es.drop_last() =~= st.errors);
}

/// An error whose message starts with neither `C` nor `T` is kept.
proof fn lemma_lenient_ordinary(st: ParseState, message: Seq<char>, s: int, e: int)
    requires
        message.len() > 0,
        message[0] != 'C',
        message[0] != 'T',
    ensures
        lenient(with_error(st, message, s, e)) == with_error(lenient(st), message, s, e),
{
    reveal_strlit("Comments are not allowed in JSON");
    reveal_strlit("Trailing commas are not allowed in JSON");
    lemma_lenient_push(st, ErrorView { message, start: s, end: e });
}

/// An error that only the options decide on is dropped.
proof fn lemma_lenient_option(st: ParseState, message: Seq<char>, s: int, e: int)
    requires
        option_error(ErrorView { message, start: s, end: e }),
    ensures
        lenient(with_error(st, message, s, e)) == lenient(st),
{
    lemma_lenient_push(st, ErrorView { message, start: s, end: e });
}

/// Skipping whitespace and comments under any options reads what JSONC mode
/// reads: the same position and comments, and the same errors once those
/// that only the options decide on are dropped. Where comments are not
/// allowed, each one recorded comes with an error (see [`step`]).
pub proof fn law_trivia_options(b: Seq<u8>, o: JsonParseOptions, st: ParseState)
    requires
        0 <= st.pos <= b.len(),
    ensures
        skip_trivia(b, jsonc_options(), lenient(st)) == lenient(skip_trivia(b, o, st)),
        step(b, o, st, skip_trivia(b, o, st)),
    decreases b.len() - st.pos,
{
    lemma_skip_trivia(b, o, st);
    let j = jsonc_options();
    let p = skip_ws(b, st.pos);
    lemma_skip_ws(b, st.pos);
    let st1 = at_pos(st, p);
    let line = starts_with2(b, p, SLASH, SLASH);
    let block = starts_with2(b, p, SLASH, STAR);
    if line || block {
        let st2 = if o.allow_comments {
            st1
        } else {
            with_error(st1, "Comments are not allowed in JSON"@, p, p + 2)
        };
        lemma_lenient_option(st1, "Comments are not allowed in JSON"@, p, p + 2);
        assert(lenient(st2) == lenient(st1));
        let st3 = if line {
            line_comment(b, st2)
        } else {
            block_comment(b, st2)
        };
        let st3j = if line {
            line_comment(b, lenient(st1))
        } else {
            block_comment(b, lenient(st1))
        };
        if line {
            lemma_line_comment(b, st2);
        } else {
            lemma_block_comment(b, st2);
            reveal_strlit("Unterminated block comment");
            lemma_lenient_ordinary(at_pos(st2, st3.pos), "Unterminated block comment"@, p, st3.pos);
        }
        assert(st3j == lenient(st3));
        if st.pos < st3.pos <= b.len() {
            law_trivia_options(b, o, st3);
        }
    }
}

proof fn lemma_hex4_lenient(b: Seq<u8>, st: ParseState, start: int, done: int, acc: int)
    ensures
        hex4_from(b, lenient(st), start, done, acc) == (
            hex4_from(b, st, start, done, acc).0,
            lenient(hex4_from(b, st, start, done, acc).1),
        ),
    decreases 4 - done,
{
    if done < 4 {
        reveal_strlit("Expected 4 hex digits after \\u");
        match peek_at(b, st.pos) {
            Some(c) => if is_hex(c) {
                lemma_hex4_lenient(b, at_pos(st, st.pos + 1), start, done + 1, acc * 16 + hex_value(c));
            } else {
                lemma_lenient_ordinary(st, "Expected 4 hex digits after \\u"@, start, st.pos);
            },
            None => {
                lemma_lenient_ordinary(st, "Expected 4 hex digits after \\u"@, start, st.pos);
            },
        }
    }
}

proof fn lemma_escape_unicode_lenient(b: Seq<u8>, cp: Option<int>, st: ParseState, buf: Seq<char>)
    ensures
        escape_unicode(b, cp, lenient(st), buf) == (
            escape_unicode(b, cp, st, buf).0,
            lenient(escape_unicode(b, cp, st, buf).1),
        ),
{
    reveal_strlit("Invalid surrogate pair");
    reveal_strlit("Expected low surrogate (\\uDC00-\\uDFFF)");
    reveal_strlit("Unpaired high surrogate");
    reveal_strlit("Unpaired low surrogate");
    reveal_strlit("Invalid unicode code point");
    match cp {
        Some(high) => if 0xD800 <= high <= 0xDBFF {
            let p = st.pos;
            if peek_at(b, p) == Some(BACKSLASH) && peek_at(b, p + 1) == Some(LOWER_U) {
                let st1 = at_pos(st, p + 2);
                lemma_hex4_lenient(b, st1, st1.pos, 0, 0);
                let st2 = hex4(b, st1).1;
                lemma_lenient_ordinary(st2, "Invalid surrogate pair"@, st2.pos - 12, st2.pos);
                lemma_lenient_ordinary(st2, "Expected low surrogate (\\uDC00-\\uDFFF)"@, st2.pos - 6, st2.pos);
            } else {
                let st2 = if peek_at(b, p) == Some(BACKSLASH) {
                    at_pos(st, p + 1)
                } else {
                    st
                };
                lemma_lenient_ordinary(st2, "Unpaired high surrogate"@, st2.pos - 6, st2.pos);
            }
        } else if 0xDC00 <= high <= 0xDFFF {
            lemma_lenient_ordinary(st, "Unpaired low surrogate"@, st.pos - 4, st.pos);
        } else {
            lemma_lenient_ordinary(st, "Invalid unicode code point"@, st.pos - 4, st.pos);
        },
        None => {},
    }
}

proof fn lemma_string_rest_lenient(b: Seq<u8>, st: ParseState, start: int, buf: Seq<char>)
    ensures
        string_rest(b, lenient(st), start, buf) == lenient_after(string_rest(b, st, start, buf)),
    decreases b.len() - st.pos,
{
    let p = st.pos;
    reveal_strlit("Unterminated string");
    if !(0 <= p < b.len()) {
        lemma_lenient_ordinary(st, "Unterminated string"@, start, p);
    } else if b[p] == 0x22 {
    } else if b[p] == BACKSLASH {
        let p1 = p + 1;
        if p1 >= b.len() {
            lemma_lenient_ordinary(at_pos(st, p1), "Unterminated string"@, start, p1);
        } else {
            let e = b[p1];
            let st1 = at_pos(st, p1 + 1);
            if simple_escape(e) is Some {
                lemma_string_rest_lenient(b, st1, start, buf.push(simple_escape(e)->0));
            } else if e == LOWER_U {
                lemma_hex4_lenient(b, st1, st1.pos, 0, 0);
                let (cp, st3) = hex4(b, st1);
                lemma_escape_unicode_lenient(b, cp, st3, buf);
                let (buf4, st4) = escape_unicode(b, cp, st3, buf);
                if p < st4.pos <= b.len() {
                    lemma_string_rest_lenient(b, st4, start, buf4);
                }
            } else if e < 0x80 {
                let m = msg_with_char("Invalid escape sequence '\\"@, e as char, "'"@);
                reveal_strlit("Invalid escape sequence '\\");
                assert(m[0] == 'I');
                lemma_lenient_ordinary(st1, m, p1 - 1, p1 + 1);
                lemma_string_rest_lenient(b, with_error(st1, m, p1 - 1, p1 + 1), start, buf.push(e as char));
            }
        }
    } else {
        let next = scan_continuation(b, p + 1);
        if p < next <= b.len() {
            lemma_string_rest_lenient(b, at_pos(st, next), start, buf + decode_utf8(b.subrange(p, next)));
        }
    }
}

proof fn lemma_string_lenient(b: Seq<u8>, st: ParseState)
    ensures
        string(b, lenient(st)) == lenient_after(string(b, st)),
{
    let start = st.pos;
    let cs = start + 1;
    let q = scan_plain(b, cs);
    reveal_strlit("Unterminated string");
    if !(0 <= q < b.len()) {
        lemma_lenient_ordinary(at_pos(st, q), "Unterminated string"@, start, q);
    } else if b[q] != QUOTE {
        lemma_string_rest_lenient(b, at_pos(st, q), start, decode_utf8(b.subrange(cs, q)));
    }
}

proof fn lemma_number_lenient(b: Seq<u8>, st: ParseState)
    ensures
        number(b, lenient(st)) == (number(b, st).0, lenient(number(b, st).1)),
{
    let start = st.pos;
    let p1 = if peek_at(b, start) == Some(MINUS) {
        start + 1
    } else {
        start
    };
    reveal_strlit("Leading zeros are not allowed");
    lemma_lenient_ordinary(st, "Leading zeros are not allowed"@, start, p1 + 2);
}

proof fn lemma_literal_lenient(
    b: Seq<u8>,
    st: ParseState,
    word: Seq<u8>,
    message: Seq<char>,
    v: Option<bool>,
)
    requires
        message.len() > 0,
        message[0] != 'C',
        message[0] != 'T',
    ensures
        literal(b, lenient(st), word, message, v) == (
            literal(b, st, word, message, v).0,
            lenient(literal(b, st, word, message, v).1),
        ),
{
    let end = literal(b, st, word, message, v).1.pos;
    lemma_lenient_ordinary(at_pos(st, end), message, st.pos, end);
}

/// Where skipping trivia stops, it stops again, whatever the errors and
/// comments so far and whatever the options.
proof fn lemma_trivia_fixed(b: Seq<u8>, o: JsonParseOptions, y1: ParseState, y2: ParseState, o2: JsonParseOptions)
    requires
        0 <= y1.pos <= b.len(),
        skip_trivia(b, o, y1) == y1,
        y2.pos == y1.pos,
    ensures
        skip_trivia(b, o2, y2) == y2,
{
    let p = skip_ws(b, y1.pos);
    lemma_skip_ws(b, y1.pos);
    let st1 = at_pos(y1, p);
    let line = starts_with2(b, p, SLASH, SLASH);
    let block = starts_with2(b, p, SLASH, STAR);
    if line || block {
        let st2 = if o.allow_comments {
            st1
        } else {
            with_error(st1, "Comments are not allowed in JSON"@, p, p + 2)
        };
        let st3 = if line {
            line_comment(b, st2)
        } else {
            block_comment(b, st2)
        };
        if line {
            lemma_line_comment(b, st2);
        } else {
            lemma_block_comment(b, st2);
        }
        if y1.pos < st3.pos <= b.len() {
            lemma_skip_trivia(b, o, st3);
        }
        assert(false);
    }
}

/// After the `,` of a list, what JSONC mode skips next is what the other
/// options skip, their trailing-comma check included.
proof fn lemma_after_comma_lenient(b: Seq<u8>, o: JsonParseOptions, x: ParseState, close: u8)
    requires
        0 <= x.pos <= b.len(),
    ensures
        skip_trivia(b, jsonc_options(), lenient(x)) == lenient(skip_trivia(b, o, after_comma(b, o, x, close))),
{
    law_trivia_options(b, o, x);
    if !o.allow_trailing_commas {
        let st1 = skip_trivia(b, o, x);
        lemma_skip_trivia(b, o, x);
        lemma_trivia_idempotent(b, o, x);
        lemma_trivia_fixed(b, o, st1, after_comma(b, o, x, close), o);
        lemma_lenient_option(st1, "Trailing commas are not allowed in JSON"@, st1.pos - 1, st1.pos);
    }
}

proof fn lemma_value_lenient(b: Seq<u8>, o: JsonParseOptions, st_o: ParseState, st_j: ParseState)
    requires
        0 <= st_o.pos <= b.len(),
        0 <= st_j.pos <= b.len(),
        skip_trivia(b, jsonc_options(), st_j) == lenient(skip_trivia(b, o, st_o)),
    ensures
        value(b, jsonc_options(), st_j) == lenient_after(value(b, o, st_o)),
    decreases b.len() - st_j.pos, 3int,
{
    let j = jsonc_options();
    lemma_skip_trivia(b, o, st_o);
    lemma_skip_trivia(b, j, st_j);
    let st1 = skip_trivia(b, o, st_o);
    let p = st1.pos;
    match peek_at(b, p) {
        Some(c) => {
            if c == QUOTE {
                lemma_string_lenient(b, st1);
            } else if c == LBRACE {
                lemma_object_lenient(b, o, st1);
            } else if c == LBRACKET {
                lemma_array_lenient(b, o, st1);
            } else if c == LOWER_T {
                reveal_strlit("Expected 'true'");
                lemma_literal_lenient(b, st1, true_word(), "Expected 'true'"@, Some(true));
            } else if c == LOWER_F {
                reveal_strlit("Expected 'false'");
                lemma_literal_lenient(b, st1, false_word(), "Expected 'false'"@, Some(false));
            } else if c == LOWER_N {
                reveal_strlit("Expected 'null'");
                lemma_literal_lenient(b, st1, null_word(), "Expected 'null'"@, None);
            } else if c == MINUS || is_digit(c) {
                lemma_number_lenient(b, st1);
            } else {
                let m = msg_with_char("Unexpected character '"@, c as char, "'"@);
                reveal_strlit("Unexpected character '");
                assert(m[0] == 'U');
                lemma_lenient_ordinary(at_pos(st1, p + 1), m, p, p + 1);
            }
        },
        None => {
            reveal_strlit("Unexpected end of input");
            lemma_lenient_ordinary(st1, "Unexpected end of input"@, p, p);
        },
    }
}

proof fn lemma_object_lenient(b: Seq<u8>, o: JsonParseOptions, st: ParseState)
    requires
        0 <= st.pos < b.len(),
    ensures
        object(b, jsonc_options(), lenient(st)) == lenient_after(object(b, o, st)),
    decreases b.len() - st.pos, 2int,
{
    let start = st.pos;
    let st0 = at_pos(st, start + 1);
    law_trivia_options(b, o, st0);
    lemma_skip_trivia(b, o, st0);
    let st1 = skip_trivia(b, o, st0);
    if start < st1.pos <= b.len() {
        let props = if peek_at(b, st1.pos) != Some(RBRACE) {
            law_trivia_options(b, o, st1);
            lemma_object_members_lenient(b, o, st1, lenient(st1), Seq::empty());
            lemma_object_members(b, o, st1, Seq::empty());
            object_members(b, o, st1, Seq::empty())
        } else {
            Some((Seq::<PropView>::empty(), st1))
        };
        if let Some((ps, st2)) = props {
            law_trivia_options(b, o, st2);
            let st3 = skip_trivia(b, o, st2);
            reveal_strlit("Expected '}'");
            lemma_lenient_ordinary(st3, "Expected '}'"@, st3.pos, st3.pos + 1);
        }
    }
}

proof fn lemma_object_members_lenient(
    b: Seq<u8>,
    o: JsonParseOptions,
    st_o: ParseState,
    st_j: ParseState,
    acc: Seq<PropView>,
)
    requires
        0 <= st_o.pos <= b.len(),
        0 <= st_j.pos <= b.len(),
        skip_trivia(b, jsonc_options(), st_j) == lenient(skip_trivia(b, o, st_o)),
    ensures
        object_members(b, jsonc_options(), st_j, acc) == lenient_after(object_members(b, o, st_o, acc)),
    decreases b.len() - st_j.pos, 4int,
{
    let j = jsonc_options();
    lemma_skip_trivia(b, o, st_o);
    lemma_skip_trivia(b, j, st_j);
    let st1 = skip_trivia(b, o, st_o);
    let p = st1.pos;
    reveal_strlit("Expected property name");
    reveal_strlit("Expected ':'");
    if peek_at(b, p) == Some(RBRACE) {
    } else if peek_at(b, p) != Some(QUOTE) {
        lemma_lenient_ordinary(st1, "Expected property name"@, p, p + 1);
    } else {
        lemma_string_lenient(b, st1);
        lemma_string(b, st1);
        if let Some((key, st2)) = string(b, st1) {
            law_trivia_options(b, o, st2);
            lemma_skip_trivia(b, o, st2);
            let st3 = skip_trivia(b, o, st2);
            if peek_at(b, st3.pos) != Some(COLON) {
                lemma_lenient_ordinary(st3, "Expected ':'"@, st3.pos, st3.pos + 1);
            } else {
                let st3a = at_pos(st3, st3.pos + 1);
                law_trivia_options(b, o, st3a);
                lemma_skip_trivia(b, o, st3a);
                let st4 = skip_trivia(b, o, st3a);
                law_trivia_options(b, o, st4);
                lemma_value_lenient(b, o, st4, lenient(st4));
                lemma_value(b, o, st4);
                if let Some((v, st5)) = value(b, o, st4) {
                    law_trivia_options(b, o, st5);
                    lemma_skip_trivia(b, o, st5);
                    let st6 = skip_trivia(b, o, st5);
                    let acc2 = acc.push(PropView { span: crate::semantics::span_of(p, st5.pos), key, value: v });
                    if peek_at(b, st6.pos) == Some(COMMA) {
                        let st6a = at_pos(st6, st6.pos + 1);
                        lemma_after_comma(b, o, st6a, RBRACE);
                        lemma_after_comma_lenient(b, o, st6a, RBRACE);
                        let st7 = after_comma(b, o, st6a, RBRACE);
                        lemma_object_members_lenient(b, o, st7, lenient(st6a), acc2);
                    }
                }
            }
        }
    }
}

proof fn lemma_array_lenient(b: Seq<u8>, o: JsonParseOptions, st: ParseState)
    requires
        0 <= st.pos < b.len(),
    ensures
        array(b, jsonc_options(), lenient(st)) == lenient_after(array(b, o, st)),
    decreases b.len() - st.pos, 2int,
{
    let start = st.pos;
    let st0 = at_pos(st, start + 1);
    law_trivia_options(b, o, st0);
    lemma_skip_trivia(b, o, st0);
    let st1 = skip_trivia(b, o, st0);
    if start < st1.pos <= b.len() {
        let elems = if peek_at(b, st1.pos) != Some(RBRACKET) {
            law_trivia_options(b, o, st1);
            lemma_array_elements_lenient(b, o, st1, lenient(st1), Seq::empty());
            lemma_array_elements(b, o, st1, Seq::empty());
            array_elements(b, o, st1, Seq::empty())
        } else {
            Some((Seq::<ValueView>::empty(), st1))
        };
        if let Some((es, st2)) = elems {
            law_trivia_options(b, o, st2);
            let st3 = skip_trivia(b, o, st2);
            reveal_strlit("Expected ']'");
            lemma_lenient_ordinary(st3, "Expected ']'"@, st3.pos, st3.pos + 1);
        }
    }
}

proof fn lemma_array_elements_lenient(
    b: Seq<u8>,
    o: JsonParseOptions,
    st_o: ParseState,
    st_j: ParseState,
    acc: Seq<ValueView>,
)
    requires
        0 <= st_o.pos <= b.len(),
        0 <= st_j.pos <= b.len(),
        skip_trivia(b, jsonc_options(), st_j) == lenient(skip_trivia(b, o, st_o)),
    ensures
        array_elements(b, jsonc_options(), st_j, acc) == lenient_after(array_elements(b, o, st_o, acc)),
    decreases b.len() - st_j.pos, 4int,
{
    let j = jsonc_options();
    lemma_skip_trivia(b, o, st_o);
    lemma_skip_trivia(b, j, st_j);
    let st1 = skip_trivia(b, o, st_o);
    let p = st1.pos;
    if peek_at(b, p) != Some(RBRACKET) {
        law_trivia_options(b, o, st1);
        lemma_value_lenient(b, o, st1, lenient(st1));
        lemma_value(b, o, st1);
        if let Some((v, st2)) = value(b, o, st1) {
            law_trivia_options(b, o, st2);
            lemma_skip_trivia(b, o, st2);
            let st3 = skip_trivia(b, o, st2);
            if peek_at(b, st3.pos) == Some(COMMA) {
                let st3a = at_pos(st3, st3.pos + 1);
                lemma_after_comma(b, o, st3a, RBRACKET);
                lemma_after_comma_lenient(b, o, st3a, RBRACKET);
                let st4 = after_comma(b, o, st3a, RBRACKET);
                lemma_array_elements_lenient(b, o, st4, lenient(st3a), acc.push(v));
            }
        }
    }
}

/// The options change only what is reported. Under any options the parser
/// reads the same value and the same comments as in JSONC mode, and the JSONC
/// errors are its errors without those that only the options decide on (a
/// comment or a trailing comma that they forbid), the others in their order.
pub proof fn law_options_only_add_errors(b: Seq<u8>, o: JsonParseOptions)
    ensures
        parse_outcome(b, jsonc_options()) == match parse_outcome(b, o) {
            Some(out) => Some(
                ParseOutcome { value: out.value, comments: out.comments, errors: without_option_errors(out.errors) },
            ),
            None => None,
        },
{
    let st0 = initial_state();
    assert(lenient(st0) == st0);
    law_trivia_options(b, o, st0);
    lemma_skip_trivia(b, o, st0);
    let st1 = skip_trivia(b, o, st0);
    law_trivia_options(b, o, st1);
    lemma_value_lenient(b, o, st1, lenient(st1));
    lemma_value(b, o, st1);
    if let Some((v, st2)) = value(b, o, st1) {
        law_trivia_options(b, o, st2);
        let st3 = skip_trivia(b, o, st2);
        reveal_strlit("Unexpected content after JSON value");
        lemma_lenient_ordinary(st3, "Unexpected content after JSON value"@, st3.pos, st3.pos + 1);
    }
}

/// Strict JSON is JSONC: a source that strict mode parses without an error
/// parses, in JSONC mode, to the very same value, comments and (no) errors.
pub proof fn law_strict_json_is_jsonc(b: Seq<u8>)
    requires
        parse_outcome(b, strict_options()) matches Some(out) && out.errors.len() == 0,
    ensures
        parse_outcome(b, jsonc_options()) == parse_outcome(b, strict_options()),
{
    law_options_only_add_errors(b, strict_options());
    let out = parse_outcome(b, strict_options()).unwrap();
    assert(out.errors =~= Seq::<ErrorView>::empty());
}

} // verus!
