//! Properties of what the parser produces, proved over [`crate::semantics`].
use vstd::prelude::*;

use crate::ast::{CommentView, JsonCommentKind, NumView, PropView, Span, StrView, ValueView};
use crate::jsonc_options;
use crate::parser::JsonParseOptions;
use vstd::utf8::{
    char_is_scalar, char_u32_cast, decode_utf8, decode_utf8_split, encode_scalar, encode_utf8,
    encode_utf8_decode_utf8, has_width_1_encoding, has_width_2_encoding, has_width_3_encoding,
    last_continuation_byte, leading_byte_width_2, leading_byte_width_3, leading_byte_width_4,
    second_last_continuation_byte, third_last_continuation_byte, valid_utf8, valid_utf8_split,
};

use crate::text::{lemma_boundary, lemma_boundary_after_ascii, lemma_continuation_mask};

use crate::semantics::{
    is_alpha, is_ws, ErrorView, COLON,
    after_comma, array, array_elements, at_pos, block_comment, escape_unicode, false_word, hex4,
    hex4_from, hex_value, initial_state, is_digit, is_hex, line_comment, literal, msg_with_char,
    null_word, number, object, object_members, parse_outcome, peek_at, scan_alpha, scan_block,
    scan_continuation, scan_digits, scan_line, scan_plain, simple_escape, skip_trivia, skip_ws,
    span_of, starts_with2, string, string_rest, true_word, value, with_error, word_end, BACKSLASH,
    COMMA, LBRACE, LBRACKET, LF, LOWER_F, LOWER_N, LOWER_T, LOWER_U, MINUS, ParseState, QUOTE,
    RBRACE, RBRACKET, SLASH, STAR,
};

verus! {

// ---------------------------------------------------------------------------
// Scanning stays within the source and never moves back.
// ---------------------------------------------------------------------------

pub(crate) proof fn lemma_skip_ws(b: Seq<u8>, p: int)
    requires
        0 <= p <= b.len(),
    ensures
        p <= skip_ws(b, p) <= b.len(),
        skip_ws(b, skip_ws(b, p)) == skip_ws(b, p),
    decreases b.len() - p,
{
    if p < b.len() {
        lemma_skip_ws(b, p + 1);
    }
}

proof fn lemma_scan_line(b: Seq<u8>, p: int)
    requires
        0 <= p <= b.len(),
    ensures
        p <= scan_line(b, p) <= b.len(),
        scan_line(b, p) == b.len() || b[scan_line(b, p)] == LF,
        forall|k: int| p <= k < scan_line(b, p) ==> b[k] != LF,
    decreases b.len() - p,
{
    if p < b.len() {
        lemma_scan_line(b, p + 1);
    }
}

proof fn lemma_scan_block(b: Seq<u8>, p: int)
    requires
        0 <= p <= b.len(),
    ensures
        p <= scan_block(b, p) <= b.len(),
        scan_block(b, p) + 1 < b.len() ==> b[scan_block(b, p)] == STAR && b[scan_block(b, p) + 1] == SLASH,
        forall|m: int| p <= m < scan_block(b, p) ==> !#[trigger] starts_with2(b, m, STAR, SLASH),
    decreases b.len() - p,
{
    if p + 1 < b.len() {
        lemma_scan_block(b, p + 1);
    }
}

proof fn lemma_scan_digits(b: Seq<u8>, p: int)
    requires
        0 <= p <= b.len(),
    ensures
        p <= scan_digits(b, p) <= b.len(),
    decreases b.len() - p,
{
    if p < b.len() {
        lemma_scan_digits(b, p + 1);
    }
}

proof fn lemma_scan_alpha(b: Seq<u8>, p: int)
    requires
        0 <= p <= b.len(),
    ensures
        p <= scan_alpha(b, p) <= b.len(),
    decreases b.len() - p,
{
    if p < b.len() {
        lemma_scan_alpha(b, p + 1);
    }
}

proof fn lemma_scan_continuation(b: Seq<u8>, p: int)
    requires
        0 <= p <= b.len(),
    ensures
        p <= scan_continuation(b, p) <= b.len(),
    decreases b.len() - p,
{
    if p < b.len() {
        lemma_scan_continuation(b, p + 1);
    }
}

proof fn lemma_scan_continuation_stop(b: Seq<u8>, p: int)
    requires
        0 <= p <= b.len(),
    ensures
        scan_continuation(b, p) < b.len() ==> b[scan_continuation(b, p)] & 0xC0 != 0x80,
    decreases b.len() - p,
{
    if p < b.len() {
        lemma_scan_continuation_stop(b, p + 1);
    }
}

proof fn lemma_scan_plain(b: Seq<u8>, p: int)
    requires
        0 <= p <= b.len(),
    ensures
        p <= scan_plain(b, p) <= b.len(),
        forall|k: int| p <= k < scan_plain(b, p) ==> b[k] != 0x22 && b[k] != 0x5c,
        scan_plain(b, p) < b.len() ==> b[scan_plain(b, p)] == 0x22 || b[scan_plain(b, p)] == 0x5c,
    decreases b.len() - p,
{
    if p < b.len() {
        lemma_scan_plain(b, p + 1);
    }
}

// ---------------------------------------------------------------------------
// How one state follows another.
// ---------------------------------------------------------------------------

/// Whether the comment `c` is the source text it claims: its span starts with
/// the comment's opening delimiter, and its text is what stands between the
/// delimiters (a line comment runs to the end of its line, a block comment to
/// the first `*/`).
pub open spec fn comment_in_source(b: Seq<u8>, c: CommentView) -> bool {
    let s = c.span.start as int;
    let e = c.span.end as int;
    match c.kind {
        JsonCommentKind::Line => {
            &&& s + 2 <= e <= b.len()
            &&& starts_with2(b, s, SLASH, SLASH)
            &&& c.value == b.subrange(s + 2, e)
            &&& (e == b.len() || b[e] == LF)
            &&& forall|k: int| 0 <= k < c.value.len() ==> c.value[k] != LF
        },
        JsonCommentKind::Block => {
            &&& s + 4 <= e <= b.len()
            &&& starts_with2(b, s, SLASH, STAR)
            &&& starts_with2(b, e - 2, STAR, SLASH)
            &&& c.value == b.subrange(s + 2, e - 2)
            &&& forall|m: int| s + 2 <= m < e - 2 ==> !#[trigger] starts_with2(b, m, STAR, SLASH)
        },
    }
}

/// `st2` comes after `st1`: it stands no earlier and within the source, it
/// keeps the comments and errors of `st1` and adds to them only at the end,
/// and (where spans can hold the offsets) every added comment is the source
/// text it claims, and the added comments lie in order between the two
/// positions.
pub open spec fn grows(b: Seq<u8>, st1: ParseState, st2: ParseState) -> bool {
    &&& st1.pos <= st2.pos <= b.len()
    &&& st1.comments.is_prefix_of(st2.comments)
    &&& st1.errors.is_prefix_of(st2.errors)
    &&& b.len() <= u32::MAX ==> forall|i: int|
        st1.comments.len() <= i < st2.comments.len() ==> #[trigger] comment_in_source(b, st2.comments[i])
    &&& b.len() <= u32::MAX ==> comments_in_order(st2.comments, st1.comments.len() as int, st1.pos, st2.pos)
}

/// The comments `cs[from..]` lie between the offsets `lo` and `hi`, each
/// ending before the next begins.
pub open spec fn comments_in_order(cs: Seq<CommentView>, from: int, lo: int, hi: int) -> bool {
    &&& forall|i: int|
        from <= i < cs.len() ==> lo <= (#[trigger] cs[i]).span.start && cs[i].span.end <= hi
    &&& forall|i: int, k: int|
        from <= i < k < cs.len() ==> (#[trigger] cs[i]).span.end <= (#[trigger] cs[k]).span.start
}

/// Between `st1` and `st2`, at least as many errors as comments were added.
pub open spec fn comments_reported(st1: ParseState, st2: ParseState) -> bool {
    st2.comments.len() - st1.comments.len() <= st2.errors.len() - st1.errors.len()
}

/// A step of the parser under options `o`: it grows the state, and without
/// `allow_comments` every comment it adds comes with an error.
pub open spec fn step(b: Seq<u8>, o: JsonParseOptions, st1: ParseState, st2: ParseState) -> bool {
    &&& grows(b, st1, st2)
    &&& !o.allow_comments ==> comments_reported(st1, st2)
}

proof fn lemma_step_refl(b: Seq<u8>, o: JsonParseOptions, st: ParseState)
    requires
        0 <= st.pos <= b.len(),
    ensures
        step(b, o, st, st),
{
    assert(st.comments.is_prefix_of(st.comments));
    assert(st.errors.is_prefix_of(st.errors));
}

proof fn lemma_step_trans(b: Seq<u8>, o: JsonParseOptions, st1: ParseState, st2: ParseState, st3: ParseState)
    requires
        step(b, o, st1, st2),
        step(b, o, st2, st3),
    ensures
        step(b, o, st1, st3),
{
    assert(st1.comments.is_prefix_of(st3.comments)) by {
        assert forall|i: int| 0 <= i < st1.comments.len() implies st1.comments[i] == st3.comments[i] by {
            assert(st1.comments[i] == st2.comments[i]);
        }
    }
    assert(st1.errors.is_prefix_of(st3.errors)) by {
        assert forall|i: int| 0 <= i < st1.errors.len() implies st1.errors[i] == st3.errors[i] by {
            assert(st1.errors[i] == st2.errors[i]);
        }
    }
    if b.len() <= u32::MAX {
        assert forall|i: int| st1.comments.len() <= i < st3.comments.len() implies #[trigger] comment_in_source(
            b,
            st3.comments[i],
        ) by {
            if i < st2.comments.len() {
                assert(st2.comments[i] == st3.comments[i]);
            }
        }
        let n2 = st2.comments.len() as int;
        assert forall|i: int| st1.comments.len() <= i < n2 implies #[trigger] st3.comments[i] == st2.comments[i] by {}
        assert forall|i: int, k: int|
            st1.comments.len() <= i < k < st3.comments.len() implies (#[trigger] st3.comments[i]).span.end
            <= (#[trigger] st3.comments[k]).span.start by {
            if k < n2 {
                assert(st3.comments[i] == st2.comments[i]);
                assert(st3.comments[k] == st2.comments[k]);
            } else if i < n2 {
                assert(st3.comments[i] == st2.comments[i]);
            }
        }
    }
}

proof fn lemma_grows_trans(b: Seq<u8>, st1: ParseState, st2: ParseState, st3: ParseState)
    requires
        grows(b, st1, st2),
        grows(b, st2, st3),
    ensures
        grows(b, st1, st3),
{
    let o = JsonParseOptions { allow_comments: true, allow_trailing_commas: true };
    lemma_step_trans(b, o, st1, st2, st3);
}

/// Adding an error is a step.
proof fn lemma_step_error(b: Seq<u8>, o: JsonParseOptions, st: ParseState, message: Seq<char>, s: int, e: int)
    requires
        0 <= st.pos <= b.len(),
    ensures
        step(b, o, st, with_error(st, message, s, e)),
{
    let st2 = with_error(st, message, s, e);
    assert(st.comments.is_prefix_of(st2.comments));
    assert(st.errors.is_prefix_of(st2.errors));
}

/// Moving forward is a step.
proof fn lemma_step_move(b: Seq<u8>, o: JsonParseOptions, st: ParseState, p: int)
    requires
        0 <= st.pos <= p <= b.len(),
    ensures
        step(b, o, st, at_pos(st, p)),
{
    lemma_step_refl(b, o, st);
}

pub(crate) proof fn lemma_line_comment(b: Seq<u8>, st: ParseState)
    requires
        0 <= st.pos,
        starts_with2(b, st.pos, SLASH, SLASH),
    ensures
        grows(b, st, line_comment(b, st)),
        line_comment(b, st).pos >= st.pos + 2,
        line_comment(b, st).comments.len() == st.comments.len() + 1,
        line_comment(b, st).errors == st.errors,
{
    let st2 = line_comment(b, st);
    lemma_scan_line(b, st.pos + 2);
    assert(st.comments.is_prefix_of(st2.comments));
    assert(st.errors.is_prefix_of(st2.errors));
    if b.len() <= u32::MAX {
        let c = st2.comments[st.comments.len() as int];
        assert(c.span.start as int == st.pos);
        assert(c.span.end as int == st2.pos);
        assert forall|k: int| 0 <= k < c.value.len() implies c.value[k] != LF by {
            assert(c.value[k] == b[st.pos + 2 + k]);
        }
        assert(comment_in_source(b, c));
    }
}

pub(crate) proof fn lemma_block_comment(b: Seq<u8>, st: ParseState)
    requires
        0 <= st.pos,
        starts_with2(b, st.pos, SLASH, STAR),
    ensures
        grows(b, st, block_comment(b, st)),
        block_comment(b, st).pos >= st.pos + 2,
        block_comment(b, st).comments.len() - st.comments.len() + block_comment(b, st).errors.len()
            - st.errors.len() == 1,
{
    let st2 = block_comment(b, st);
    lemma_scan_block(b, st.pos + 2);
    assert(st.comments.is_prefix_of(st2.comments));
    assert(st.errors.is_prefix_of(st2.errors));
    if b.len() <= u32::MAX && st2.comments.len() > st.comments.len() {
        let c = st2.comments[st.comments.len() as int];
        assert(c.span.start as int == st.pos);
        assert(c.span.end as int == st2.pos);
        assert(comment_in_source(b, c));
    }
}

/// Skipping trivia is a step.
pub(crate) proof fn lemma_skip_trivia(b: Seq<u8>, o: JsonParseOptions, st: ParseState)
    requires
        0 <= st.pos <= b.len(),
    ensures
        step(b, o, st, skip_trivia(b, o, st)),
    decreases b.len() - st.pos,
{
    let p = skip_ws(b, st.pos);
    lemma_skip_ws(b, st.pos);
    let st1 = at_pos(st, p);
    lemma_step_move(b, o, st, p);
    let line = starts_with2(b, p, SLASH, SLASH);
    let block = starts_with2(b, p, SLASH, STAR);
    if line || block {
        let st2 = if o.allow_comments {
            st1
        } else {
            with_error(st1, "Comments are not allowed in JSON"@, p, p + 2)
        };
        lemma_step_error(b, o, st1, "Comments are not allowed in JSON"@, p, p + 2);
        lemma_step_refl(b, o, st1);
        lemma_step_trans(b, o, st, st1, st2);
        let st3 = if line {
            line_comment(b, st2)
        } else {
            block_comment(b, st2)
        };
        if line {
            lemma_line_comment(b, st2);
        } else {
            lemma_block_comment(b, st2);
        }
        assert(step(b, o, st, st3)) by {
            lemma_grows_trans(b, st, st2, st3);
        }
        if st.pos < st3.pos <= b.len() {
            lemma_skip_trivia(b, o, st3);
            lemma_step_trans(b, o, st, st3, skip_trivia(b, o, st3));
        }
    }
}

/// `st2` comes after `st1` and has only added errors.
pub open spec fn adds_errors(b: Seq<u8>, st1: ParseState, st2: ParseState) -> bool {
    &&& grows(b, st1, st2)
    &&& st2.comments == st1.comments
}

proof fn lemma_adds_errors_step(b: Seq<u8>, o: JsonParseOptions, st1: ParseState, st2: ParseState)
    requires
        adds_errors(b, st1, st2),
    ensures
        step(b, o, st1, st2),
{
}

proof fn lemma_adds_errors_trans(b: Seq<u8>, st1: ParseState, st2: ParseState, st3: ParseState)
    requires
        adds_errors(b, st1, st2),
        adds_errors(b, st2, st3),
    ensures
        adds_errors(b, st1, st3),
{
    lemma_grows_trans(b, st1, st2, st3);
}

proof fn lemma_adds_errors_error(b: Seq<u8>, st: ParseState, message: Seq<char>, s: int, e: int)
    requires
        0 <= st.pos <= b.len(),
    ensures
        adds_errors(b, st, with_error(st, message, s, e)),
{
    let o = JsonParseOptions { allow_comments: true, allow_trailing_commas: true };
    lemma_step_error(b, o, st, message, s, e);
}

proof fn lemma_adds_errors_move(b: Seq<u8>, st: ParseState, p: int)
    requires
        0 <= st.pos <= p <= b.len(),
    ensures
        adds_errors(b, st, at_pos(st, p)),
{
    let o = JsonParseOptions { allow_comments: true, allow_trailing_commas: true };
    lemma_step_move(b, o, st, p);
}

/// No backslash in the source is directly followed by a non-ASCII byte.
pub open spec fn escapes_ascii(b: Seq<u8>) -> bool {
    forall|i: int| 0 <= i < b.len() - 1 && b[i] == BACKSLASH ==> #[trigger] b[i + 1] < 0x80
}

proof fn lemma_hex4_from(b: Seq<u8>, st: ParseState, start: int, done: int, acc: int)
    requires
        0 <= st.pos <= b.len(),
        0 <= done,
    ensures
        adds_errors(b, st, hex4_from(b, st, start, done, acc).1),
    decreases 4 - done,
{
    if done < 4 {
        match peek_at(b, st.pos) {
            Some(c) => if is_hex(c) {
                lemma_hex4_from(b, at_pos(st, st.pos + 1), start, done + 1, acc * 16 + hex_value(c));
                lemma_adds_errors_move(b, st, st.pos + 1);
                lemma_adds_errors_trans(
                    b,
                    st,
                    at_pos(st, st.pos + 1),
                    hex4_from(b, at_pos(st, st.pos + 1), start, done + 1, acc * 16 + hex_value(c)).1,
                );
            } else {
                lemma_adds_errors_error(b, st, "Expected 4 hex digits after \\u"@, start, st.pos);
            },
            None => {
                lemma_adds_errors_error(b, st, "Expected 4 hex digits after \\u"@, start, st.pos);
            },
        }
    } else {
        lemma_adds_errors_move(b, st, st.pos);
    }
}

proof fn lemma_escape_unicode(b: Seq<u8>, cp: Option<int>, st: ParseState, buf: Seq<char>)
    requires
        0 <= st.pos <= b.len(),
    ensures
        adds_errors(b, st, escape_unicode(b, cp, st, buf).1),
{
    let r = escape_unicode(b, cp, st, buf).1;
    lemma_adds_errors_move(b, st, st.pos);
    match cp {
        Some(high) => if 0xD800 <= high <= 0xDBFF {
            let p = st.pos;
            if peek_at(b, p) == Some(BACKSLASH) && peek_at(b, p + 1) == Some(LOWER_U) {
                let st1 = at_pos(st, p + 2);
                lemma_adds_errors_move(b, st, p + 2);
                lemma_hex4_from(b, st1, st1.pos, 0, 0);
                let st2 = hex4(b, st1).1;
                lemma_adds_errors_trans(b, st, st1, st2);
                lemma_adds_errors_error(b, st2, "Invalid surrogate pair"@, st2.pos - 12, st2.pos);
                lemma_adds_errors_error(b, st2, "Expected low surrogate (\\uDC00-\\uDFFF)"@, st2.pos - 6, st2.pos);
                if r != st2 {
                    lemma_adds_errors_trans(b, st, st2, r);
                }
            } else {
                let st2 = if peek_at(b, p) == Some(BACKSLASH) {
                    at_pos(st, p + 1)
                } else {
                    st
                };
                lemma_adds_errors_move(b, st, st2.pos);
                lemma_adds_errors_error(b, st2, "Unpaired high surrogate"@, st2.pos - 6, st2.pos);
                lemma_adds_errors_trans(b, st, st2, r);
            }
        } else if 0xDC00 <= high <= 0xDFFF {
            lemma_adds_errors_error(b, st, "Unpaired low surrogate"@, st.pos - 4, st.pos);
        } else {
            lemma_adds_errors_error(b, st, "Invalid unicode code point"@, st.pos - 4, st.pos);
        },
        None => {},
    }
}

proof fn lemma_string_rest(b: Seq<u8>, st: ParseState, start: int, buf: Seq<char>)
    requires
        0 <= start < st.pos <= b.len(),
    ensures
        match string_rest(b, st, start, buf) {
            Some((sv, st2)) => adds_errors(b, st, st2),
            None => !escapes_ascii(b),
        },
    decreases b.len() - st.pos,
{
    let p = st.pos;
    lemma_adds_errors_move(b, st, p);
    if !(0 <= p < b.len()) {
        lemma_adds_errors_error(b, st, "Unterminated string"@, start, p);
    } else if b[p] == QUOTE {
        lemma_adds_errors_move(b, st, p + 1);
    } else if b[p] == BACKSLASH {
        let p1 = p + 1;
        if p1 >= b.len() {
            lemma_adds_errors_move(b, st, p1);
            lemma_adds_errors_error(b, at_pos(st, p1), "Unterminated string"@, start, p1);
            lemma_adds_errors_trans(b, st, at_pos(st, p1), with_error(at_pos(st, p1), "Unterminated string"@, start, p1));
        } else {
            let e = b[p1];
            let st1 = at_pos(st, p1 + 1);
            lemma_adds_errors_move(b, st, p1 + 1);
            if simple_escape(e) is Some {
                lemma_string_rest(b, st1, start, buf.push(simple_escape(e)->0));
                if let Some((sv, st2)) = string_rest(b, st1, start, buf.push(simple_escape(e)->0)) {
                    lemma_adds_errors_trans(b, st, st1, st2);
                }
            } else if e == LOWER_U {
                lemma_hex4_from(b, st1, st1.pos, 0, 0);
                let (cp, st3) = hex4(b, st1);
                lemma_escape_unicode(b, cp, st3, buf);
                let (buf4, st4) = escape_unicode(b, cp, st3, buf);
                lemma_adds_errors_trans(b, st, st1, st3);
                lemma_adds_errors_trans(b, st, st3, st4);
                lemma_string_rest(b, st4, start, buf4);
                if let Some((sv, st5)) = string_rest(b, st4, start, buf4) {
                    lemma_adds_errors_trans(b, st, st4, st5);
                }
            } else if e >= 0x80 {
                assert(b[p] == BACKSLASH && !(b[p + 1] < 0x80));
            } else {
                let st2 = with_error(st1, msg_with_char("Invalid escape sequence '\\"@, e as char, "'"@), p1 - 1, p1 + 1);
                lemma_adds_errors_error(b, st1, msg_with_char("Invalid escape sequence '\\"@, e as char, "'"@), p1 - 1, p1 + 1);
                lemma_adds_errors_trans(b, st, st1, st2);
                lemma_string_rest(b, st2, start, buf.push(e as char));
                if let Some((sv, st3)) = string_rest(b, st2, start, buf.push(e as char)) {
                    lemma_adds_errors_trans(b, st, st2, st3);
                }
            }
        }
    } else {
        let next = scan_continuation(b, p + 1);
        lemma_scan_continuation(b, p + 1);
        let st1 = at_pos(st, next);
        lemma_adds_errors_move(b, st, next);
        lemma_string_rest(b, st1, start, buf + decode_utf8(b.subrange(p, next)));
        if let Some((sv, st2)) = string_rest(b, st1, start, buf + decode_utf8(b.subrange(p, next))) {
            lemma_adds_errors_trans(b, st, st1, st2);
        }
    }
}

pub(crate) proof fn lemma_string(b: Seq<u8>, st: ParseState)
    requires
        0 <= st.pos < b.len(),
    ensures
        match string(b, st) {
            Some((sv, st2)) => adds_errors(b, st, st2) && st.pos < st2.pos,
            None => !escapes_ascii(b),
        },
{
    let start = st.pos;
    let q = scan_plain(b, start + 1);
    lemma_scan_plain(b, start + 1);
    lemma_adds_errors_move(b, st, q);
    if !(0 <= q < b.len()) {
        lemma_adds_errors_error(b, at_pos(st, q), "Unterminated string"@, start, q);
        lemma_adds_errors_trans(b, st, at_pos(st, q), with_error(at_pos(st, q), "Unterminated string"@, start, q));
    } else if b[q] == QUOTE {
        lemma_adds_errors_move(b, st, q + 1);
    } else {
        lemma_string_rest(b, at_pos(st, q), start, decode_utf8(b.subrange(start + 1, q)));
        if let Some((sv, st2)) = string_rest(b, at_pos(st, q), start, decode_utf8(b.subrange(start + 1, q))) {
            lemma_adds_errors_trans(b, st, at_pos(st, q), st2);
        }
    }
}

proof fn lemma_number(b: Seq<u8>, st: ParseState)
    requires
        0 <= st.pos < b.len(),
        b[st.pos] == MINUS || is_digit(b[st.pos]),
    ensures
        adds_errors(b, st, number(b, st).1),
        st.pos < number(b, st).1.pos,
{
    let start = st.pos;
    let p1 = if peek_at(b, start) == Some(0x2du8) {
        start + 1
    } else {
        start
    };
    lemma_scan_digits(b, p1);
    let (p2, st2) = if peek_at(b, p1) == Some(0x30u8) {
        let q = p1 + 1;
        if 0 <= q < b.len() && is_digit(b[q]) {
            (q, with_error(st, "Leading zeros are not allowed"@, start, q + 1))
        } else {
            (q, st)
        }
    } else {
        (scan_digits(b, p1), st)
    };
    lemma_adds_errors_error(b, st, "Leading zeros are not allowed"@, start, p1 + 2);
    lemma_adds_errors_move(b, st, st.pos);
    if p2 < b.len() {
        lemma_scan_digits(b, p2 + 1);
    }
    let p3 = if peek_at(b, p2) == Some(0x2eu8) {
        scan_digits(b, p2 + 1)
    } else {
        p2
    };
    if p3 < b.len() {
        lemma_scan_digits(b, p3 + 1);
    }
    if peek_at(b, p3 + 1) == Some(0x2bu8) || peek_at(b, p3 + 1) == Some(0x2du8) {
        lemma_scan_digits(b, p3 + 2);
    }
    let r = number(b, st).1;
    assert(st.pos < r.pos <= b.len());
    lemma_adds_errors_move(b, st2, r.pos);
    lemma_adds_errors_trans(b, st, st2, r);
}

proof fn lemma_literal(b: Seq<u8>, st: ParseState, word: Seq<u8>, message: Seq<char>, value: Option<bool>)
    requires
        0 <= st.pos <= b.len(),
    ensures
        adds_errors(b, st, literal(b, st, word, message, value).1),
{
    let start = st.pos;
    lemma_scan_alpha(b, start);
    let end = word_end(b, start, word);
    lemma_adds_errors_move(b, st, end);
    lemma_adds_errors_error(b, at_pos(st, end), message, start, end);
    lemma_adds_errors_trans(b, st, at_pos(st, end), with_error(at_pos(st, end), message, start, end));
}

pub(crate) proof fn lemma_after_comma(b: Seq<u8>, o: JsonParseOptions, st: ParseState, close: u8)
    requires
        0 <= st.pos <= b.len(),
    ensures
        step(b, o, st, after_comma(b, o, st, close)),
{
    lemma_step_refl(b, o, st);
    if !o.allow_trailing_commas {
        lemma_skip_trivia(b, o, st);
        let st1 = skip_trivia(b, o, st);
        lemma_step_error(b, o, st1, "Trailing commas are not allowed in JSON"@, st1.pos - 1, st1.pos);
        lemma_step_trans(
            b,
            o,
            st,
            st1,
            with_error(st1, "Trailing commas are not allowed in JSON"@, st1.pos - 1, st1.pos),
        );
    }
}

/// A value is read, unless the source escapes a non-ASCII byte; reading it is a step.
pub(crate) proof fn lemma_value(b: Seq<u8>, o: JsonParseOptions, st: ParseState)
    requires
        0 <= st.pos <= b.len(),
    ensures
        match value(b, o, st) {
            Some((v, st2)) => step(b, o, st, st2),
            None => !escapes_ascii(b),
        },
    decreases b.len() - st.pos, 3int,
{
    lemma_skip_trivia(b, o, st);
    let st1 = skip_trivia(b, o, st);
    let p = st1.pos;
    match peek_at(b, p) {
        Some(c) => {
            if c == QUOTE {
                lemma_string(b, st1);
                if let Some((s, st2)) = string(b, st1) {
                    lemma_step_trans(b, o, st, st1, st2);
                }
            } else if c == LBRACE {
                lemma_object(b, o, st1);
                if let Some((v, st2)) = object(b, o, st1) {
                    lemma_step_trans(b, o, st, st1, st2);
                }
            } else if c == LBRACKET {
                lemma_array(b, o, st1);
                if let Some((v, st2)) = array(b, o, st1) {
                    lemma_step_trans(b, o, st, st1, st2);
                }
            } else if c == LOWER_T {
                lemma_literal(b, st1, true_word(), "Expected 'true'"@, Some(true));
                lemma_step_trans(b, o, st, st1, literal(b, st1, true_word(), "Expected 'true'"@, Some(true)).1);
            } else if c == LOWER_F {
                lemma_literal(b, st1, false_word(), "Expected 'false'"@, Some(false));
                lemma_step_trans(b, o, st, st1, literal(b, st1, false_word(), "Expected 'false'"@, Some(false)).1);
            } else if c == LOWER_N {
                lemma_literal(b, st1, null_word(), "Expected 'null'"@, None);
                lemma_step_trans(b, o, st, st1, literal(b, st1, null_word(), "Expected 'null'"@, None).1);
            } else if c == MINUS || is_digit(c) {
                lemma_number(b, st1);
                lemma_step_trans(b, o, st, st1, number(b, st1).1);
            } else {
                let m = msg_with_char("Unexpected character '"@, c as char, "'"@);
                lemma_step_move(b, o, st1, p + 1);
                lemma_step_error(b, o, at_pos(st1, p + 1), m, p, p + 1);
                lemma_step_trans(b, o, st1, at_pos(st1, p + 1), with_error(at_pos(st1, p + 1), m, p, p + 1));
                lemma_step_trans(b, o, st, st1, with_error(at_pos(st1, p + 1), m, p, p + 1));
            }
        },
        None => {
            lemma_step_error(b, o, st1, "Unexpected end of input"@, p, p);
            lemma_step_trans(b, o, st, st1, with_error(st1, "Unexpected end of input"@, p, p));
        },
    }
}

proof fn lemma_object(b: Seq<u8>, o: JsonParseOptions, st: ParseState)
    requires
        0 <= st.pos < b.len(),
    ensures
        match object(b, o, st) {
            Some((v, st2)) => step(b, o, st, st2),
            None => !escapes_ascii(b),
        },
    decreases b.len() - st.pos, 2int,
{
    let start = st.pos;
    lemma_step_move(b, o, st, start + 1);
    lemma_skip_trivia(b, o, at_pos(st, start + 1));
    let st1 = skip_trivia(b, o, at_pos(st, start + 1));
    lemma_step_trans(b, o, st, at_pos(st, start + 1), st1);
    let props = if peek_at(b, st1.pos) != Some(0x7du8) {
        lemma_object_members(b, o, st1, Seq::empty());
        object_members(b, o, st1, Seq::empty())
    } else {
        lemma_step_refl(b, o, st1);
        Some((Seq::empty(), st1))
    };
    if let Some((ps, st2)) = props {
        lemma_step_trans(b, o, st, st1, st2);
        lemma_skip_trivia(b, o, st2);
        let st3 = skip_trivia(b, o, st2);
        lemma_step_trans(b, o, st, st2, st3);
        lemma_step_error(b, o, st3, "Expected '}'"@, st3.pos, st3.pos + 1);
        if peek_at(b, st3.pos) == Some(0x7du8) {
            lemma_step_move(b, o, st3, st3.pos + 1);
            lemma_step_trans(b, o, st, st3, at_pos(st3, st3.pos + 1));
        } else {
            lemma_step_trans(b, o, st, st3, with_error(st3, "Expected '}'"@, st3.pos, st3.pos + 1));
        }
    }
}

pub(crate) proof fn lemma_object_members(b: Seq<u8>, o: JsonParseOptions, st: ParseState, acc: Seq<PropView>)
    requires
        0 <= st.pos <= b.len(),
    ensures
        match object_members(b, o, st, acc) {
            Some((ps, st2)) => step(b, o, st, st2),
            None => !escapes_ascii(b),
        },
    decreases b.len() - st.pos, 4int,
{
    lemma_skip_trivia(b, o, st);
    let st1 = skip_trivia(b, o, st);
    let p = st1.pos;
    if peek_at(b, p) == Some(0x7du8) {
    } else if peek_at(b, p) != Some(0x22u8) {
        lemma_step_error(b, o, st1, "Expected property name"@, p, p + 1);
        lemma_step_trans(b, o, st, st1, with_error(st1, "Expected property name"@, p, p + 1));
    } else {
        lemma_string(b, st1);
        if let Some((key, st2)) = string(b, st1) {
            lemma_step_trans(b, o, st, st1, st2);
            lemma_skip_trivia(b, o, st2);
            let st3 = skip_trivia(b, o, st2);
            lemma_step_trans(b, o, st, st2, st3);
            if peek_at(b, st3.pos) != Some(0x3au8) {
                lemma_step_error(b, o, st3, "Expected ':'"@, st3.pos, st3.pos + 1);
                lemma_step_trans(b, o, st, st3, with_error(st3, "Expected ':'"@, st3.pos, st3.pos + 1));
            } else {
                lemma_step_move(b, o, st3, st3.pos + 1);
                lemma_skip_trivia(b, o, at_pos(st3, st3.pos + 1));
                let st4 = skip_trivia(b, o, at_pos(st3, st3.pos + 1));
                lemma_step_trans(b, o, st3, at_pos(st3, st3.pos + 1), st4);
                lemma_step_trans(b, o, st, st3, st4);
                lemma_value(b, o, st4);
                if let Some((v, st5)) = value(b, o, st4) {
                    lemma_step_trans(b, o, st, st4, st5);
                    let acc2 = acc.push(PropView { span: span_of(p, st5.pos), key, value: v });
                    lemma_skip_trivia(b, o, st5);
                    let st6 = skip_trivia(b, o, st5);
                    lemma_step_trans(b, o, st, st5, st6);
                    if peek_at(b, st6.pos) == Some(0x2cu8) {
                        lemma_step_move(b, o, st6, st6.pos + 1);
                        lemma_after_comma(b, o, at_pos(st6, st6.pos + 1), 0x7d);
                        let st7 = after_comma(b, o, at_pos(st6, st6.pos + 1), 0x7d);
                        lemma_step_trans(b, o, st6, at_pos(st6, st6.pos + 1), st7);
                        lemma_step_trans(b, o, st, st6, st7);
                        if st.pos < st7.pos <= b.len() {
                            lemma_object_members(b, o, st7, acc2);
                            if let Some((ps, st8)) = object_members(b, o, st7, acc2) {
                                lemma_step_trans(b, o, st, st7, st8);
                            }
                        }
                    }
                }
            }
        }
    }
}

proof fn lemma_array(b: Seq<u8>, o: JsonParseOptions, st: ParseState)
    requires
        0 <= st.pos < b.len(),
    ensures
        match array(b, o, st) {
            Some((v, st2)) => step(b, o, st, st2),
            None => !escapes_ascii(b),
        },
    decreases b.len() - st.pos, 2int,
{
    let start = st.pos;
    lemma_step_move(b, o, st, start + 1);
    lemma_skip_trivia(b, o, at_pos(st, start + 1));
    let st1 = skip_trivia(b, o, at_pos(st, start + 1));
    lemma_step_trans(b, o, st, at_pos(st, start + 1), st1);
    let elems = if peek_at(b, st1.pos) != Some(0x5du8) {
        lemma_array_elements(b, o, st1, Seq::empty());
        array_elements(b, o, st1, Seq::empty())
    } else {
        lemma_step_refl(b, o, st1);
        Some((Seq::empty(), st1))
    };
    if let Some((es, st2)) = elems {
        lemma_step_trans(b, o, st, st1, st2);
        lemma_skip_trivia(b, o, st2);
        let st3 = skip_trivia(b, o, st2);
        lemma_step_trans(b, o, st, st2, st3);
        lemma_step_error(b, o, st3, "Expected ']'"@, st3.pos, st3.pos + 1);
        if peek_at(b, st3.pos) == Some(0x5du8) {
            lemma_step_move(b, o, st3, st3.pos + 1);
            lemma_step_trans(b, o, st, st3, at_pos(st3, st3.pos + 1));
        } else {
            lemma_step_trans(b, o, st, st3, with_error(st3, "Expected ']'"@, st3.pos, st3.pos + 1));
        }
    }
}

pub(crate) proof fn lemma_array_elements(b: Seq<u8>, o: JsonParseOptions, st: ParseState, acc: Seq<ValueView>)
    requires
        0 <= st.pos <= b.len(),
    ensures
        match array_elements(b, o, st, acc) {
            Some((es, st2)) => step(b, o, st, st2),
            None => !escapes_ascii(b),
        },
    decreases b.len() - st.pos, 4int,
{
    lemma_skip_trivia(b, o, st);
    let st1 = skip_trivia(b, o, st);
    let p = st1.pos;
    if peek_at(b, p) != Some(0x5du8) {
        lemma_value(b, o, st1);
        if let Some((v, st2)) = value(b, o, st1) {
            lemma_step_trans(b, o, st, st1, st2);
            let acc2 = acc.push(v);
            lemma_skip_trivia(b, o, st2);
            let st3 = skip_trivia(b, o, st2);
            lemma_step_trans(b, o, st, st2, st3);
            if peek_at(b, st3.pos) == Some(0x2cu8) {
                lemma_step_move(b, o, st3, st3.pos + 1);
                lemma_after_comma(b, o, at_pos(st3, st3.pos + 1), 0x5d);
                let st4 = after_comma(b, o, at_pos(st3, st3.pos + 1), 0x5d);
                lemma_step_trans(b, o, st3, at_pos(st3, st3.pos + 1), st4);
                lemma_step_trans(b, o, st, st3, st4);
                if st.pos < st4.pos <= b.len() {
                    lemma_array_elements(b, o, st4, acc2);
                    if let Some((es, st5)) = array_elements(b, o, st4, acc2) {
                        lemma_step_trans(b, o, st, st4, st5);
                    }
                }
            }
        }
    }
}

/// The whole parse, when it yields an outcome, is a step from the initial state.
proof fn lemma_outcome(b: Seq<u8>, o: JsonParseOptions)
    ensures
        match parse_outcome(b, o) {
            Some(out) => step(
                b,
                o,
                initial_state(),
                ParseState { pos: b.len() as int, comments: out.comments, errors: out.errors },
            ),
            None => !escapes_ascii(b),
        },
{
    let st0 = initial_state();
    lemma_skip_trivia(b, o, st0);
    let st1 = skip_trivia(b, o, st0);
    lemma_value(b, o, st1);
    if let Some((v, st2)) = value(b, o, st1) {
        lemma_step_trans(b, o, st0, st1, st2);
        lemma_skip_trivia(b, o, st2);
        let st3 = skip_trivia(b, o, st2);
        lemma_step_trans(b, o, st0, st2, st3);
        let st4 = if st3.pos < b.len() {
            with_error(st3, "Unexpected content after JSON value"@, st3.pos, st3.pos + 1)
        } else {
            st3
        };
        lemma_step_error(b, o, st3, "Unexpected content after JSON value"@, st3.pos, st3.pos + 1);
        lemma_step_refl(b, o, st3);
        lemma_step_trans(b, o, st0, st3, st4);
        let fin = ParseState { pos: b.len() as int, comments: st4.comments, errors: st4.errors };
        lemma_step_move(b, o, st4, b.len() as int);
        lemma_step_trans(b, o, st0, st4, at_pos(st4, b.len() as int));
        assert(at_pos(st4, b.len() as int) == fin);
    }
}

/// The parser reads every source in which no backslash is followed by a
/// non-ASCII byte: on such a source it yields a result (and does not stop
/// inside a character).
pub proof fn law_parse_succeeds(b: Seq<u8>, o: JsonParseOptions)
    requires
        escapes_ascii(b),
    ensures
        parse_outcome(b, o) is Some,
{
    lemma_outcome(b, o);
}

/// Every comment that the parser records is the source text it claims: its
/// span begins with `//` or `/*`, a line comment's text runs from after the
/// `//` to the end of its line, and a block comment's text is what stands
/// between `/*` and `*/` (offsets that fit a span's 32 bits assumed).
pub proof fn law_comments_are_source_text(b: Seq<u8>, o: JsonParseOptions)
    requires
        parse_outcome(b, o) is Some,
        b.len() <= u32::MAX,
    ensures
        forall|i: int|
            0 <= i < parse_outcome(b, o).unwrap().comments.len() ==> #[trigger] comment_in_source(
                b,
                parse_outcome(b, o).unwrap().comments[i],
            ),
{
    lemma_outcome(b, o);
}

/// The comments come in the order in which they stand in the source, each
/// ending before the next begins (offsets that fit a span's 32 bits assumed).
pub proof fn law_comments_in_order(b: Seq<u8>, o: JsonParseOptions)
    requires
        parse_outcome(b, o) is Some,
        b.len() <= u32::MAX,
    ensures
        forall|i: int, k: int|
            0 <= i < k < parse_outcome(b, o).unwrap().comments.len() ==> (#[trigger] parse_outcome(
                b,
                o,
            ).unwrap().comments[i]).span.end <= (#[trigger] parse_outcome(b, o).unwrap().comments[k]).span.start,
{
    lemma_outcome(b, o);
}

/// Without `allow_comments`, every comment in the source is also reported as
/// an error: there are at least as many errors as comments, so a source with a
/// comment never parses cleanly in strict mode.
pub proof fn law_strict_reports_comments(b: Seq<u8>, o: JsonParseOptions)
    requires
        parse_outcome(b, o) is Some,
        !o.allow_comments,
    ensures
        parse_outcome(b, o).unwrap().comments.len() <= parse_outcome(b, o).unwrap().errors.len(),
{
    lemma_outcome(b, o);
}

// ---------------------------------------------------------------------------
// Steps that report nothing
// ---------------------------------------------------------------------------

/// A step that adds no error adds none at any point in between.
proof fn lemma_clean_between(b: Seq<u8>, o: JsonParseOptions, a: ParseState, m: ParseState, z: ParseState)
    requires
        step(b, o, a, m),
        step(b, o, m, z),
        z.errors == a.errors,
    ensures
        m.errors == a.errors,
{
    assert(m.errors =~= a.errors);
}

// ---------------------------------------------------------------------------
// String tokens
// ---------------------------------------------------------------------------

/// Whether the string token `sv` is the source text it claims (offsets that
/// fit a span assumed): its span starts at the opening quote; `raw` is the
/// source text after that quote, up to the closing quote (which the span then
/// includes) or, for a string never closed, up to the end of the source; the
/// value borrows the source exactly when `raw` holds no backslash, and a
/// borrowed value is `raw` decoded as UTF-8.
pub open spec fn string_in_source(b: Seq<u8>, sv: StrView) -> bool {
    let s = sv.span.start as int;
    let e = sv.span.end as int;
    let r = s + 1 + sv.raw.len();
    &&& 0 <= s < b.len()
    &&& b[s] == QUOTE
    &&& r <= b.len()
    &&& sv.raw == b.subrange(s + 1, r)
    &&& ((r < b.len() && b[r] == QUOTE && e == r + 1) || (r == b.len() && e == r))
    &&& (sv.borrowed <==> !sv.raw.contains(BACKSLASH))
    &&& (sv.borrowed ==> sv.value == decode_utf8(sv.raw))
}

proof fn lemma_string_rest_raw(b: Seq<u8>, st: ParseState, start: int, buf: Seq<char>)
    requires
        0 <= start < st.pos <= b.len(),
    ensures
        string_rest(b, st, start, buf) matches Some((sv, st2)) ==> {
            let r = start + 1 + sv.raw.len();
            &&& st.pos <= r <= b.len()
            &&& (st.pos < b.len() && b[st.pos] == BACKSLASH ==> st.pos < r)
            &&& sv.raw == b.subrange(start + 1, r)
            &&& sv.span == span_of(start, st2.pos)
            &&& ((r < b.len() && b[r] == QUOTE && st2.pos == r + 1) || (r == b.len() && st2.pos == r))
            &&& (r == b.len() ==> st2.errors.len() > st.errors.len())
            &&& !sv.borrowed
        },
    decreases b.len() - st.pos,
{
    let p = st.pos;
    if !(0 <= p < b.len()) {
    } else if b[p] == QUOTE {
    } else if b[p] == BACKSLASH {
        let p1 = p + 1;
        if p1 < b.len() {
            let e = b[p1];
            let st1 = at_pos(st, p1 + 1);
            if simple_escape(e) is Some {
                lemma_string_rest_raw(b, st1, start, buf.push(simple_escape(e)->0));
            } else if e == LOWER_U {
                lemma_hex4_from(b, st1, st1.pos, 0, 0);
                let (cp, st3) = hex4(b, st1);
                lemma_escape_unicode(b, cp, st3, buf);
                let (buf4, st4) = escape_unicode(b, cp, st3, buf);
                if p < st4.pos <= b.len() {
                    lemma_string_rest_raw(b, st4, start, buf4);
                }
            } else if e < 0x80 {
                let st2 = with_error(
                    st1,
                    msg_with_char("Invalid escape sequence '\\"@, e as char, "'"@),
                    p1 - 1,
                    p1 + 1,
                );
                lemma_string_rest_raw(b, st2, start, buf.push(e as char));
            }
        }
    } else {
        let next = scan_continuation(b, p + 1);
        lemma_scan_continuation(b, p + 1);
        lemma_string_rest_raw(b, at_pos(st, next), start, buf + decode_utf8(b.subrange(p, next)));
    }
}

/// Every string token that the parser reads is the source text it claims
/// (see [`string_in_source`]), and reading it moves the parser to the end of
/// its span, keeps the comments and at most adds errors; a string never
/// closed (its text runs to the end of the source) adds one.
pub proof fn law_string_token(b: Seq<u8>, st: ParseState)
    requires
        0 <= st.pos < b.len(),
        b[st.pos] == QUOTE,
        b.len() <= u32::MAX,
    ensures
        string(b, st) matches Some((sv, st2)) ==> {
            &&& string_in_source(b, sv)
            &&& sv.span == span_of(st.pos, st2.pos)
            &&& adds_errors(b, st, st2)
            &&& (st.pos + 1 + sv.raw.len() == b.len() ==> st2.errors.len() > st.errors.len())
        },
{
    lemma_string(b, st);
    let start = st.pos;
    let cs = start + 1;
    let q = scan_plain(b, cs);
    lemma_scan_plain(b, cs);
    if let Some((sv, st2)) = string(b, st) {
        if !(0 <= q < b.len()) || b[q] == QUOTE {
            assert(sv.raw.len() == q - cs);
            assert(!sv.raw.contains(BACKSLASH)) by {
                if sv.raw.contains(BACKSLASH) {
                    let k = choose|k: int| 0 <= k < sv.raw.len() && sv.raw[k] == BACKSLASH;
                    assert(b[cs + k] == BACKSLASH);
                }
            }
        } else {
            lemma_string_rest_raw(b, at_pos(st, q), start, decode_utf8(b.subrange(cs, q)));
            assert(string(b, st) == string_rest(b, at_pos(st, q), start, decode_utf8(b.subrange(cs, q))));
            assert(b[q] == BACKSLASH);
            assert(sv.raw[q - cs] == BACKSLASH);
        }
    }
}


/// Skipping trivia stops where neither whitespace nor a comment starts, so
/// skipping again changes nothing.
pub proof fn lemma_trivia_idempotent(b: Seq<u8>, o: JsonParseOptions, st: ParseState)
    requires
        0 <= st.pos <= b.len(),
    ensures
        skip_trivia(b, o, skip_trivia(b, o, st)) == skip_trivia(b, o, st),
    decreases b.len() - st.pos,
{
    let p = skip_ws(b, st.pos);
    lemma_skip_ws(b, st.pos);
    let st1 = at_pos(st, p);
    let line = starts_with2(b, p, SLASH, SLASH);
    let block = starts_with2(b, p, SLASH, STAR);
    if line || block {
        let st2 = if o.allow_comments {
            st1
        } else {
            with_error(st1, "Comments are not allowed in JSON"@, p, p + 2)
        };
        let st3 = if line {
            line_comment(b, st2)
        } else {
            block_comment(b, st2)
        };
        if line {
            lemma_line_comment(b, st2);
        } else {
            lemma_block_comment(b, st2);
        }
        lemma_trivia_idempotent(b, o, st3);
    } else {
        assert(at_pos(st1, skip_ws(b, p)) == st1);
    }
}

// ---------------------------------------------------------------------------
// The value tree
// ---------------------------------------------------------------------------

/// The span of a value.
pub open spec fn view_span(v: ValueView) -> Span {
    match v {
        ValueView::Object(sp, _) => sp,
        ValueView::Array(sp, _) => sp,
        ValueView::String(sv) => sv.span,
        ValueView::Number(n) => n.span,
        ValueView::Bool(jb) => jb.span,
        ValueView::Null(sp) => sp,
    }
}

/// Whether the value `v` is the source text it claims (offsets that fit a span
/// assumed): its span lies within the source; an object or array span starts
/// at its `{` or `[` and holds its members, in order; string tokens are as
/// [`string_in_source`] says; a number's text is its span's text, starting
/// with `-` or a digit; a boolean's span holds `true` or `false` as its value
/// says, and a null's span holds neither.
pub open spec fn value_in_source(b: Seq<u8>, v: ValueView) -> bool
    decreases v,
{
    let s = view_span(v).start as int;
    let e = view_span(v).end as int;
    &&& s <= e <= b.len()
    &&& match v {
        ValueView::Object(sp, ps) => s < e && b[s] == LBRACE && props_in_source(b, ps, s, e),
        ValueView::Array(sp, es) => s < e && b[s] == LBRACKET && values_in_source(b, es, s, e),
        ValueView::String(sv) => string_in_source(b, sv),
        ValueView::Number(n) => s < e && n.raw == b.subrange(s, e) && (b[s] == MINUS || is_digit(b[s])),
        ValueView::Bool(jb) => b.subrange(s, e) == if jb.value {
            text_true()
        } else {
            text_false()
        },
        ValueView::Null(_) => b.subrange(s, e) != text_true() && b.subrange(s, e) != text_false(),
    }
}

/// The text `true`.
pub open spec fn text_true() -> Seq<u8> {
    seq![0x74u8, 0x72u8, 0x75u8, 0x65u8]
}

/// The text `false`.
pub open spec fn text_false() -> Seq<u8> {
    seq![0x66u8, 0x61u8, 0x6cu8, 0x73u8, 0x65u8]
}

/// Whether each property of `ps` lies after `lo` and ends by `hi`, ends
/// before the next one starts, starts with its key and ends with its value,
/// and holds a key and value that are the source text they claim.
pub open spec fn props_in_source(b: Seq<u8>, ps: Seq<PropView>, lo: int, hi: int) -> bool
    decreases ps,
{
    if ps.len() == 0 {
        true
    } else {
        let p = ps.last();
        &&& props_in_source(b, ps.drop_last(), lo, hi)
        &&& ps.len() > 1 ==> ps.drop_last().last().span.end as int <= p.span.start as int
        &&& lo < p.span.start as int
        &&& p.span.end as int <= hi
        &&& p.span.start == p.key.span.start
        &&& p.span.end == view_span(p.value).end
        &&& string_in_source(b, p.key)
        &&& value_in_source(b, p.value)
    }
}

/// Whether each element of `es` lies after `lo`, ends by `hi`, ends before
/// the next one starts, and is the source text it claims.
pub open spec fn values_in_source(b: Seq<u8>, es: Seq<ValueView>, lo: int, hi: int) -> bool
    decreases es,
{
    if es.len() == 0 {
        true
    } else {
        let v = es.last();
        &&& values_in_source(b, es.drop_last(), lo, hi)
        &&& es.len() > 1 ==> view_span(es.drop_last().last()).end as int <= view_span(v).start as int
        &&& lo < view_span(v).start as int
        &&& view_span(v).end as int <= hi
        &&& value_in_source(b, v)
    }
}

proof fn lemma_props_widen(b: Seq<u8>, ps: Seq<PropView>, lo: int, hi: int, hi2: int)
    requires
        props_in_source(b, ps, lo, hi),
        hi <= hi2,
    ensures
        props_in_source(b, ps, lo, hi2),
    decreases ps.len(),
{
    if ps.len() > 0 {
        lemma_props_widen(b, ps.drop_last(), lo, hi, hi2);
    }
}

proof fn lemma_values_widen(b: Seq<u8>, es: Seq<ValueView>, lo: int, hi: int, hi2: int)
    requires
        values_in_source(b, es, lo, hi),
        hi <= hi2,
    ensures
        values_in_source(b, es, lo, hi2),
    decreases es.len(),
{
    if es.len() > 0 {
        lemma_values_widen(b, es.drop_last(), lo, hi, hi2);
    }
}

proof fn lemma_value_tree(b: Seq<u8>, o: JsonParseOptions, st: ParseState)
    requires
        0 <= st.pos <= b.len(),
        b.len() <= u32::MAX,
    ensures
        value(b, o, st) matches Some((v, st2)) ==> value_in_source(b, v) && view_span(v) == span_of(
            skip_trivia(b, o, st).pos,
            st2.pos,
        ),
    decreases b.len() - st.pos, 3int,
{
    lemma_skip_trivia(b, o, st);
    let st1 = skip_trivia(b, o, st);
    let p = st1.pos;
    match peek_at(b, p) {
        Some(c) => {
            if c == QUOTE {
                law_string_token(b, st1);
            } else if c == LBRACE {
                lemma_object_tree(b, o, st1);
            } else if c == LBRACKET {
                lemma_array_tree(b, o, st1);
            } else if c == LOWER_T || c == LOWER_F || c == LOWER_N {
                lemma_scan_alpha(b, p);
                assert(true_word() =~= text_true());
                assert(false_word() =~= text_false());
                let word = if c == LOWER_T {
                    true_word()
                } else if c == LOWER_F {
                    false_word()
                } else {
                    null_word()
                };
                let end = word_end(b, p, word);
                let t = b.subrange(p, end);
                if t == text_true() || t == text_false() {
                    assert(t[0] == b[p]);
                    if c == LOWER_T {
                        assert(t == text_true());
                        assert(b.subrange(p, p + 4) =~= t);
                    } else if c == LOWER_F {
                        assert(t == text_false());
                        assert(b.subrange(p, p + 5) =~= t);
                    }
                }
            } else if c == MINUS || is_digit(c) {
                lemma_number(b, st1);
            } else {
                assert(b.subrange(p, p + 1).len() == 1);
            }
        },
        None => {
            assert(b.subrange(p, p).len() == 0);
        },
    }
}

proof fn lemma_object_tree(b: Seq<u8>, o: JsonParseOptions, st: ParseState)
    requires
        0 <= st.pos < b.len(),
        b[st.pos] == LBRACE,
        b.len() <= u32::MAX,
    ensures
        object(b, o, st) matches Some((v, st2)) ==> value_in_source(b, v) && view_span(v) == span_of(st.pos, st2.pos),
    decreases b.len() - st.pos, 2int,
{
    let start = st.pos;
    lemma_skip_trivia(b, o, at_pos(st, start + 1));
    let st1 = skip_trivia(b, o, at_pos(st, start + 1));
    lemma_object(b, o, st);
    if peek_at(b, st1.pos) != Some(0x7du8) {
        lemma_object_members(b, o, st1, Seq::empty());
        lemma_object_members_tree(b, o, st1, Seq::empty(), start);
    }
    let props = if peek_at(b, st1.pos) != Some(0x7du8) {
        object_members(b, o, st1, Seq::empty())
    } else {
        Some((Seq::empty(), st1))
    };
    if let Some((ps, st2)) = props {
        lemma_skip_trivia(b, o, st2);
        let st3 = skip_trivia(b, o, st2);
        if let Some((v, st4)) = object(b, o, st) {
            lemma_props_widen(b, ps, start, st2.pos, st4.pos);
        }
    }
}

proof fn lemma_array_tree(b: Seq<u8>, o: JsonParseOptions, st: ParseState)
    requires
        0 <= st.pos < b.len(),
        b[st.pos] == LBRACKET,
        b.len() <= u32::MAX,
    ensures
        array(b, o, st) matches Some((v, st2)) ==> value_in_source(b, v) && view_span(v) == span_of(st.pos, st2.pos),
    decreases b.len() - st.pos, 2int,
{
    let start = st.pos;
    lemma_skip_trivia(b, o, at_pos(st, start + 1));
    let st1 = skip_trivia(b, o, at_pos(st, start + 1));
    lemma_array(b, o, st);
    if peek_at(b, st1.pos) != Some(0x5du8) {
        lemma_array_elements(b, o, st1, Seq::empty());
        lemma_array_elements_tree(b, o, st1, Seq::empty(), start);
    }
    let elems = if peek_at(b, st1.pos) != Some(0x5du8) {
        array_elements(b, o, st1, Seq::empty())
    } else {
        Some((Seq::empty(), st1))
    };
    if let Some((es, st2)) = elems {
        lemma_skip_trivia(b, o, st2);
        if let Some((v, st4)) = array(b, o, st) {
            lemma_values_widen(b, es, start, st2.pos, st4.pos);
        }
    }
}

proof fn lemma_object_members_tree(b: Seq<u8>, o: JsonParseOptions, st: ParseState, acc: Seq<PropView>, lo: int)
    requires
        0 <= lo < st.pos <= b.len(),
        b.len() <= u32::MAX,
        props_in_source(b, acc, lo, st.pos),
    ensures
        object_members(b, o, st, acc) matches Some((ps, st2)) ==> props_in_source(b, ps, lo, st2.pos),
    decreases b.len() - st.pos, 4int,
{
    lemma_skip_trivia(b, o, st);
    let st1 = skip_trivia(b, o, st);
    let p = st1.pos;
    lemma_object_members(b, o, st, acc);
    if peek_at(b, p) == Some(0x7du8) {
        lemma_props_widen(b, acc, lo, st.pos, st1.pos);
    } else if peek_at(b, p) != Some(0x22u8) {
        lemma_props_widen(b, acc, lo, st.pos, st1.pos);
    } else {
        lemma_string(b, st1);
        law_string_token(b, st1);
        if let Some((key, st2)) = string(b, st1) {
            lemma_skip_trivia(b, o, st2);
            let st3 = skip_trivia(b, o, st2);
            if peek_at(b, st3.pos) != Some(0x3au8) {
                lemma_props_widen(b, acc, lo, st.pos, st3.pos);
            } else {
                lemma_skip_trivia(b, o, at_pos(st3, st3.pos + 1));
                let st4 = skip_trivia(b, o, at_pos(st3, st3.pos + 1));
                lemma_value(b, o, st4);
                lemma_value_tree(b, o, st4);
                if let Some((v, st5)) = value(b, o, st4) {
                    let prop = PropView { span: span_of(p, st5.pos), key, value: v };
                    let acc2 = acc.push(prop);
                    lemma_props_widen(b, acc, lo, st.pos, st5.pos);
                    assert(acc2.drop_last() =~= acc);
                    assert(props_in_source(b, acc2, lo, st5.pos));
                    lemma_skip_trivia(b, o, st5);
                    let st6 = skip_trivia(b, o, st5);
                    lemma_props_widen(b, acc2, lo, st5.pos, st6.pos);
                    if peek_at(b, st6.pos) == Some(0x2cu8) {
                        lemma_after_comma(b, o, at_pos(st6, st6.pos + 1), 0x7d);
                        let st7 = after_comma(b, o, at_pos(st6, st6.pos + 1), 0x7d);
                        if st.pos < st7.pos <= b.len() {
                            lemma_props_widen(b, acc2, lo, st6.pos, st7.pos);
                            lemma_object_members_tree(b, o, st7, acc2, lo);
                        }
                    }
                }
            }
        }
    }
}

proof fn lemma_array_elements_tree(b: Seq<u8>, o: JsonParseOptions, st: ParseState, acc: Seq<ValueView>, lo: int)
    requires
        0 <= lo < st.pos <= b.len(),
        b.len() <= u32::MAX,
        values_in_source(b, acc, lo, st.pos),
    ensures
        array_elements(b, o, st, acc) matches Some((es, st2)) ==> values_in_source(b, es, lo, st2.pos),
    decreases b.len() - st.pos, 4int,
{
    lemma_skip_trivia(b, o, st);
    let st1 = skip_trivia(b, o, st);
    let p = st1.pos;
    lemma_array_elements(b, o, st, acc);
    if peek_at(b, p) == Some(0x5du8) {
        lemma_values_widen(b, acc, lo, st.pos, st1.pos);
    } else {
        lemma_value(b, o, st1);
        lemma_value_tree(b, o, st1);
        if let Some((v, st2)) = value(b, o, st1) {
            let acc2 = acc.push(v);
            lemma_values_widen(b, acc, lo, st.pos, st2.pos);
            assert(acc2.drop_last() =~= acc);
            assert(values_in_source(b, acc2, lo, st2.pos));
            lemma_skip_trivia(b, o, st2);
            let st3 = skip_trivia(b, o, st2);
            lemma_values_widen(b, acc2, lo, st2.pos, st3.pos);
            if peek_at(b, st3.pos) == Some(0x2cu8) {
                lemma_after_comma(b, o, at_pos(st3, st3.pos + 1), 0x5d);
                let st4 = after_comma(b, o, at_pos(st3, st3.pos + 1), 0x5d);
                if st.pos < st4.pos <= b.len() {
                    lemma_values_widen(b, acc2, lo, st3.pos, st4.pos);
                    lemma_array_elements_tree(b, o, st4, acc2, lo);
                }
            }
        }
    }
}

/// Every value in the parse result is the source text it claims (see
/// [`value_in_source`]; offsets that fit a span assumed), and the span of the
/// top value starts at the first character that is neither whitespace nor
/// part of a comment.
pub proof fn law_values_in_source(b: Seq<u8>, o: JsonParseOptions)
    requires
        parse_outcome(b, o) is Some,
        b.len() <= u32::MAX,
    ensures
        value_in_source(b, parse_outcome(b, o).unwrap().value),
        view_span(parse_outcome(b, o).unwrap().value).start as int == skip_trivia(b, o, initial_state()).pos,
{
    let st0 = initial_state();
    lemma_skip_trivia(b, o, st0);
    let st1 = skip_trivia(b, o, st0);
    lemma_value_tree(b, o, st1);
    lemma_value(b, o, st1);
    lemma_skip_trivia(b, o, st1);
    lemma_trivia_idempotent(b, o, st0);
}

// ---------------------------------------------------------------------------
// Decoded string values
// ---------------------------------------------------------------------------

/// Whether four hex digits stand at `i`.
pub open spec fn hex4_at(r: Seq<u8>, i: int) -> bool {
    &&& 0 <= i
    &&& i + 4 <= r.len()
    &&& json_hex(r[i])
    &&& json_hex(r[i + 1])
    &&& json_hex(r[i + 2])
    &&& json_hex(r[i + 3])
}

/// Whether `c` is a hex digit: `0`..`9`, `a`..`f` or `A`..`F`.
pub open spec fn json_hex(c: u8) -> bool {
    (0x30 <= c <= 0x39) || (0x61 <= c <= 0x66) || (0x41 <= c <= 0x46)
}

/// The value of the hex digit `c`.
pub open spec fn json_hex_value(c: u8) -> int {
    if 0x30 <= c <= 0x39 {
        c - 0x30
    } else if 0x61 <= c <= 0x66 {
        c - 0x61 + 10
    } else {
        c - 0x41 + 10
    }
}

/// The character that the one-letter JSON escape `\e` stands for: `\"`,
/// `\\`, `\/`, `\b` (backspace), `\f` (form feed), `\n`, `\r`, `\t`.
pub open spec fn escape_letter(e: u8) -> Option<char> {
    if e == 0x22 {
        Some('"')
    } else if e == 0x5c {
        Some('\\')
    } else if e == 0x2f {
        Some('/')
    } else if e == 0x62 {
        Some('\u{8}')
    } else if e == 0x66 {
        Some('\u{c}')
    } else if e == 0x6e {
        Some('\n')
    } else if e == 0x72 {
        Some('\r')
    } else if e == 0x74 {
        Some('\t')
    } else {
        None
    }
}

/// The one-letter escapes and hex digits that the parser reads are JSON's
/// (see [`escape_letter`], [`json_hex`], [`json_hex_value`]).
pub proof fn law_escapes_are_json(e: u8)
    ensures
        simple_escape(e) == escape_letter(e),
        is_hex(e) == json_hex(e),
        json_hex(e) ==> hex_value(e) == json_hex_value(e),
{
}

/// The number that the four hex digits at `i` write.
pub open spec fn hex4_value(r: Seq<u8>, i: int) -> int {
    json_hex_value(r[i]) * 4096 + json_hex_value(r[i + 1]) * 256 + json_hex_value(r[i + 2]) * 16
        + json_hex_value(r[i + 3])
}

/// The characters that `r`, the text between a string's quotes, stands for
/// when every escape in it is well formed: `\"`, `\\`, `\/`, `\b`, `\f`, `\n`,
/// `\r` and `\t` each stand for one character, `\uXXXX` for the character with
/// that code (a high-surrogate escape followed by a low-surrogate escape for
/// the one character they encode together), and any other character for
/// itself (its UTF-8 bytes decoded). Where an escape is not well formed the
/// rest is left out.
pub open spec fn unescaped(r: Seq<u8>) -> Seq<char>
    decreases r.len(),
{
    if r.len() == 0 {
        seq![]
    } else if r[0] != BACKSLASH {
        let n = scan_continuation(r, 1);
        if 1 <= n <= r.len() {
            decode_utf8(r.subrange(0, n)) + unescaped(r.subrange(n, r.len() as int))
        } else {
            seq![]
        }
    } else if r.len() >= 2 && escape_letter(r[1]) is Some {
        seq![escape_letter(r[1])->0] + unescaped(r.subrange(2, r.len() as int))
    } else if r.len() >= 6 && r[1] == LOWER_U && hex4_at(r, 2) {
        let cp = hex4_value(r, 2);
        if 0xD800 <= cp <= 0xDBFF {
            if r.len() >= 12 && r[6] == BACKSLASH && r[7] == LOWER_U && hex4_at(r, 8) && 0xDC00
                <= hex4_value(r, 8) <= 0xDFFF {
                seq![(0x10000 + (cp - 0xD800) * 1024 + (hex4_value(r, 8) - 0xDC00)) as char]
                    + unescaped(r.subrange(12, r.len() as int))
            } else {
                seq![]
            }
        } else if 0xDC00 <= cp <= 0xDFFF {
            seq![]
        } else {
            seq![cp as char] + unescaped(r.subrange(6, r.len() as int))
        }
    } else {
        seq![]
    }
}

proof fn lemma_hex4_value(b: Seq<u8>, st: ParseState)
    requires
        0 <= st.pos,
    ensures
        hex4(b, st).0 matches Some(v) ==> hex4_at(b, st.pos) && v == hex4_value(b, st.pos) && hex4(b, st).1
            == at_pos(st, st.pos + 4),
        hex4(b, st).0 is None ==> hex4(b, st).1.errors.len() == st.errors.len() + 1,
{
    reveal_with_fuel(hex4_from, 5);
}

/// Scanning continuation bytes of a subrange finds what scanning the whole
/// finds, when that ends inside the subrange.
proof fn lemma_scan_continuation_sub(b: Seq<u8>, p: int, r: int, i: int)
    requires
        0 <= p,
        1 <= i,
        p + i <= r <= b.len(),
        scan_continuation(b, p + i) <= r,
    ensures
        scan_continuation(b.subrange(p, r), i) == scan_continuation(b, p + i) - p,
    decreases r - p - i,
{
    lemma_scan_continuation(b, p + i);
    if p + i < r {
        assert(b.subrange(p, r)[i] == b[p + i]);
        if b[p + i] & 0xC0 == 0x80 {
            lemma_scan_continuation_sub(b, p, r, i + 1);
        }
    }
}

/// Scanning continuation bytes of `x + y` stops within `x` when `y` does not
/// start with a continuation byte.
proof fn lemma_scan_continuation_concat(x: Seq<u8>, y: Seq<u8>, i: int)
    requires
        1 <= i <= x.len(),
        y.len() > 0 ==> y[0] & 0xC0 != 0x80,
    ensures
        scan_continuation(x + y, i) == scan_continuation(x, i),
    decreases x.len() - i,
{
    if i < x.len() {
        assert((x + y)[i] == x[i]);
        if x[i] & 0xC0 == 0x80 {
            lemma_scan_continuation_concat(x, y, i + 1);
        }
    } else if y.len() > 0 {
        assert((x + y)[i] == y[0]);
    }
}

/// Text without a backslash, followed by text that is empty or starts with
/// one, stands for its characters decoded.
proof fn lemma_unescaped_plain(x: Seq<u8>, y: Seq<u8>)
    requires
        valid_utf8(x),
        !x.contains(BACKSLASH),
        y.len() > 0 ==> y[0] == BACKSLASH,
    ensures
        unescaped(x + y) == decode_utf8(x) + unescaped(y),
    decreases x.len(),
{
    if x.len() == 0 {
        assert(x + y =~= y);
        assert(decode_utf8(x) =~= seq![]);
    } else {
        let z = x + y;
        assert(z[0] == x[0]);
        assert(x[0] != BACKSLASH) by {
            if x[0] == BACKSLASH {
                assert(x.contains(BACKSLASH));
            }
        }
        if y.len() > 0 {
            let y0 = y[0];
            assert(y0 & 0xC0 != 0x80) by (bit_vector)
                requires
                    y0 == 0x5cu8,
            ;
        }
        lemma_scan_continuation_concat(x, y, 1);
        lemma_scan_continuation(x, 1);
        let m = scan_continuation(x, 1);
        // `m` is a character boundary of `x`
        lemma_boundary(x, m);
        if m < x.len() {
            lemma_scan_continuation_stop(x, 1);
            lemma_continuation_mask(x[m]);
        }
        valid_utf8_split(x, m);
        decode_utf8_split(x, m);
        let rest = x.subrange(m, x.len() as int);
        assert(!rest.contains(BACKSLASH)) by {
            if rest.contains(BACKSLASH) {
                let k = choose|k: int| 0 <= k < rest.len() && rest[k] == BACKSLASH;
                assert(x[m + k] == BACKSLASH);
                assert(x.contains(BACKSLASH));
            }
        }
        lemma_unescaped_plain(rest, y);
        assert(z.subrange(0, m) =~= x.subrange(0, m));
        assert(z.subrange(m, z.len() as int) =~= rest + y);
        assert(unescaped(z) == decode_utf8(x.subrange(0, m)) + unescaped(rest + y));
        assert(decode_utf8(x) =~= decode_utf8(x.subrange(0, m)) + decode_utf8(rest));
        assert(unescaped(z) =~= decode_utf8(x) + unescaped(y));
    }
}

#[verifier::spinoff_prover]
#[verifier::rlimit(40)]
proof fn lemma_string_rest_value(b: Seq<u8>, st: ParseState, start: int, buf: Seq<char>)
    requires
        0 <= start < st.pos <= b.len(),
    ensures
        string_rest(b, st, start, buf) matches Some((sv, st2)) ==> (st2.errors == st.errors ==> sv.value == buf
            + unescaped(b.subrange(st.pos, start + 1 + sv.raw.len()))),
    decreases b.len() - st.pos,
{
    let p = st.pos;
    lemma_string_rest(b, st, start, buf);
    lemma_string_rest_raw(b, st, start, buf);
    if let Some((sv, st2)) = string_rest(b, st, start, buf) {
        if st2.errors == st.errors {
            let r = start + 1 + sv.raw.len();
            let big = b.subrange(p, r);
            if b[p] == QUOTE {
                assert(big =~= seq![]);
                assert(buf + unescaped(big) =~= buf);
            } else if b[p] == BACKSLASH {
                let p1 = p + 1;
                let e = b[p1];
                let st1 = at_pos(st, p1 + 1);
                assert(big[0] == BACKSLASH);
                if simple_escape(e) is Some {
                    let c = simple_escape(e)->0;
                    lemma_string_rest_value(b, st1, start, buf.push(c));
                    lemma_string_rest_raw(b, st1, start, buf.push(c));
                    assert(big[1] == e);
                    assert(big.subrange(2, big.len() as int) =~= b.subrange(p + 2, r));
                    assert(buf.push(c) + unescaped(b.subrange(p + 2, r)) =~= buf + (seq![c] + unescaped(
                        b.subrange(p + 2, r),
                    )));
                } else if e == LOWER_U {
                    lemma_hex4_from(b, st1, st1.pos, 0, 0);
                    lemma_hex4_value(b, st1);
                    let (cp, st3) = hex4(b, st1);
                    lemma_escape_unicode(b, cp, st3, buf);
                    let (buf4, st4) = escape_unicode(b, cp, st3, buf);
                    lemma_string_rest(b, st4, start, buf4);
                    lemma_string_rest_raw(b, st4, start, buf4);
                    lemma_string_rest_value(b, st4, start, buf4);
                    // nothing reported between `st` and `st2`
                    assert(st3.errors.len() == st.errors.len());
                    assert(st4.errors.len() == st.errors.len());
                    let v = cp->0;
                    assert(hex4_at(b, p + 2));
                    assert(big[1] == LOWER_U);
                    assert(hex4_at(big, 2)) by {
                        assert(big[2] == b[p + 2]);
                        assert(big[3] == b[p + 3]);
                        assert(big[4] == b[p + 4]);
                        assert(big[5] == b[p + 5]);
                    }
                    assert(hex4_value(big, 2) == v) by {
                        assert(big[2] == b[p + 2]);
                        assert(big[3] == b[p + 3]);
                        assert(big[4] == b[p + 4]);
                        assert(big[5] == b[p + 5]);
                    }
                    if 0xD800 <= v <= 0xDBFF {
                        let st5 = at_pos(st3, p + 8);
                        lemma_hex4_value(b, st5);
                        let low = hex4(b, st5).0->0;
                        assert(big[6] == b[p + 6]);
                        assert(big[7] == b[p + 7]);
                        assert(hex4_at(big, 8) && hex4_value(big, 8) == low) by {
                            assert(big[8] == b[p + 8]);
                            assert(big[9] == b[p + 9]);
                            assert(big[10] == b[p + 10]);
                            assert(big[11] == b[p + 11]);
                        }
                        let ch = (0x10000 + (v - 0xD800) * 1024 + (low - 0xDC00)) as char;
                        assert(big.subrange(12, big.len() as int) =~= b.subrange(p + 12, r));
                        assert(buf.push(ch) + unescaped(b.subrange(p + 12, r)) =~= buf + (seq![ch]
                            + unescaped(b.subrange(p + 12, r))));
                    } else {
                        assert(big.subrange(6, big.len() as int) =~= b.subrange(p + 6, r));
                        assert(buf.push(v as char) + unescaped(b.subrange(p + 6, r)) =~= buf + (seq![v as char]
                            + unescaped(b.subrange(p + 6, r))));
                    }
                } else if e < 0x80 {
                    let m = msg_with_char("Invalid escape sequence '\\"@, e as char, "'"@);
                    let st1e = with_error(st1, m, p1 - 1, p1 + 1);
                    lemma_string_rest(b, st1e, start, buf.push(e as char));
                }
            } else {
                let next = scan_continuation(b, p + 1);
                lemma_scan_continuation(b, p + 1);
                let st1 = at_pos(st, next);
                let buf1 = buf + decode_utf8(b.subrange(p, next));
                lemma_string_rest_value(b, st1, start, buf1);
                lemma_string_rest_raw(b, st1, start, buf1);
                lemma_scan_continuation_sub(b, p, r, 1);
                assert(big[0] == b[p]);
                assert(big.subrange(0, next - p) =~= b.subrange(p, next));
                assert(big.subrange(next - p, big.len() as int) =~= b.subrange(next, r));
                assert(buf1 + unescaped(b.subrange(next, r)) =~= buf + (decode_utf8(b.subrange(p, next))
                    + unescaped(b.subrange(next, r))));
            }
        }
    }
}

/// A string that the parser reads without reporting an error has for value
/// what its text stands for (see [`unescaped`]).
pub proof fn law_string_value(b: Seq<u8>, st: ParseState)
    requires
        valid_utf8(b),
        0 <= st.pos < b.len(),
        b[st.pos] == QUOTE,
    ensures
        string(b, st) matches Some((sv, st2)) ==> (st2.errors == st.errors ==> sv.value == unescaped(sv.raw)),
{
    let start = st.pos;
    let cs = start + 1;
    let q = scan_plain(b, cs);
    lemma_scan_plain(b, cs);
    lemma_string(b, st);
    if let Some((sv, st2)) = string(b, st) {
        if st2.errors == st.errors && q < b.len() {
            // `b[cs..q]` is valid UTF-8 without a backslash
            lemma_boundary_after_ascii(b, start);
            valid_utf8_split(b, cs);
            let tail = b.subrange(cs, b.len() as int);
            lemma_boundary(tail, q - cs);
            assert(tail[q - cs] == b[q]);
            valid_utf8_split(tail, q - cs);
            let x = tail.subrange(0, q - cs);
            assert(x =~= b.subrange(cs, q));
            assert(!x.contains(BACKSLASH)) by {
                if x.contains(BACKSLASH) {
                    let k = choose|k: int| 0 <= k < x.len() && x[k] == BACKSLASH;
                    assert(b[cs + k] == BACKSLASH);
                }
            }
            if b[q] == QUOTE {
                lemma_unescaped_plain(x, seq![]);
                assert(x + seq![] =~= x);
                assert(decode_utf8(x) + unescaped(seq![]) =~= decode_utf8(x));
            } else {
                let st1 = at_pos(st, q);
                lemma_string_rest_value(b, st1, start, decode_utf8(x));
                lemma_string_rest_raw(b, st1, start, decode_utf8(x));
                let r = cs + sv.raw.len();
                let y = b.subrange(q, r);
                assert(y[0] == BACKSLASH);
                lemma_unescaped_plain(x, y);
                assert(sv.raw =~= x + y);
            }
        }
    }
}

/// Whether every string in `v` (keys included) has for value what its text
/// stands for.
pub open spec fn strings_decoded(v: ValueView) -> bool
    decreases v,
{
    match v {
        ValueView::Object(_, ps) => props_decoded(ps),
        ValueView::Array(_, es) => values_decoded(es),
        ValueView::String(sv) => sv.value == unescaped(sv.raw),
        _ => true,
    }
}

pub open spec fn props_decoded(ps: Seq<PropView>) -> bool
    decreases ps,
{
    if ps.len() == 0 {
        true
    } else {
        &&& props_decoded(ps.drop_last())
        &&& ps.last().key.value == unescaped(ps.last().key.raw)
        &&& strings_decoded(ps.last().value)
    }
}

pub open spec fn values_decoded(es: Seq<ValueView>) -> bool
    decreases es,
{
    if es.len() == 0 {
        true
    } else {
        values_decoded(es.drop_last()) && strings_decoded(es.last())
    }
}

proof fn lemma_value_decoded(b: Seq<u8>, o: JsonParseOptions, st: ParseState)
    requires
        valid_utf8(b),
        0 <= st.pos <= b.len(),
    ensures
        value(b, o, st) matches Some((v, st2)) ==> (st2.errors == st.errors ==> strings_decoded(v)),
    decreases b.len() - st.pos, 3int,
{
    lemma_skip_trivia(b, o, st);
    lemma_value(b, o, st);
    let st1 = skip_trivia(b, o, st);
    let p = st1.pos;
    match peek_at(b, p) {
        Some(c) => {
            if c == QUOTE {
                lemma_string(b, st1);
                law_string_value(b, st1);
                if let Some((sv, st2)) = string(b, st1) {
                    if st2.errors == st.errors {
                        lemma_adds_errors_step(b, o, st1, st2);
                        lemma_clean_between(b, o, st, st1, st2);
                    }
                }
            } else if c == LBRACE {
                lemma_object(b, o, st1);
                lemma_object_decoded(b, o, st1);
                if let Some((v, st2)) = object(b, o, st1) {
                    if st2.errors == st.errors {
                        lemma_clean_between(b, o, st, st1, st2);
                    }
                }
            } else if c == LBRACKET {
                lemma_array(b, o, st1);
                lemma_array_decoded(b, o, st1);
                if let Some((v, st2)) = array(b, o, st1) {
                    if st2.errors == st.errors {
                        lemma_clean_between(b, o, st, st1, st2);
                    }
                }
            }
        },
        None => {},
    }
}

proof fn lemma_object_decoded(b: Seq<u8>, o: JsonParseOptions, st: ParseState)
    requires
        valid_utf8(b),
        0 <= st.pos < b.len(),
    ensures
        object(b, o, st) matches Some((v, st2)) ==> (st2.errors == st.errors ==> strings_decoded(v)),
    decreases b.len() - st.pos, 2int,
{
    let start = st.pos;
    let st0 = at_pos(st, start + 1);
    lemma_step_move(b, o, st, start + 1);
    lemma_skip_trivia(b, o, st0);
    let st1 = skip_trivia(b, o, st0);
    lemma_step_trans(b, o, st, st0, st1);
    lemma_object(b, o, st);
    if let Some((v, fin)) = object(b, o, st) {
        if fin.errors == st.errors && peek_at(b, st1.pos) != Some(0x7du8) {
            lemma_object_members(b, o, st1, Seq::empty());
            lemma_object_members_decoded(b, o, st1, Seq::empty());
            let (ps, st2) = object_members(b, o, st1, Seq::empty()).unwrap();
            lemma_skip_trivia(b, o, st2);
            let st3 = skip_trivia(b, o, st2);
            lemma_step_error(b, o, st3, "Expected '}'"@, st3.pos, st3.pos + 1);
            lemma_step_refl(b, o, st3);
            if st3.pos < b.len() {
                lemma_step_move(b, o, st3, st3.pos + 1);
            }
            lemma_step_trans(b, o, st2, st3, fin);
            lemma_step_trans(b, o, st1, st2, fin);
            lemma_clean_between(b, o, st, st1, fin);
            lemma_clean_between(b, o, st1, st2, fin);
        }
    }
}

proof fn lemma_array_decoded(b: Seq<u8>, o: JsonParseOptions, st: ParseState)
    requires
        valid_utf8(b),
        0 <= st.pos < b.len(),
    ensures
        array(b, o, st) matches Some((v, st2)) ==> (st2.errors == st.errors ==> strings_decoded(v)),
    decreases b.len() - st.pos, 2int,
{
    let start = st.pos;
    let st0 = at_pos(st, start + 1);
    lemma_step_move(b, o, st, start + 1);
    lemma_skip_trivia(b, o, st0);
    let st1 = skip_trivia(b, o, st0);
    lemma_step_trans(b, o, st, st0, st1);
    lemma_array(b, o, st);
    if let Some((v, fin)) = array(b, o, st) {
        if fin.errors == st.errors && peek_at(b, st1.pos) != Some(0x5du8) {
            lemma_array_elements(b, o, st1, Seq::empty());
            lemma_array_elements_decoded(b, o, st1, Seq::empty());
            let (es, st2) = array_elements(b, o, st1, Seq::empty()).unwrap();
            lemma_skip_trivia(b, o, st2);
            let st3 = skip_trivia(b, o, st2);
            lemma_step_error(b, o, st3, "Expected ']'"@, st3.pos, st3.pos + 1);
            lemma_step_refl(b, o, st3);
            if st3.pos < b.len() {
                lemma_step_move(b, o, st3, st3.pos + 1);
            }
            lemma_step_trans(b, o, st2, st3, fin);
            lemma_step_trans(b, o, st1, st2, fin);
            lemma_clean_between(b, o, st, st1, fin);
            lemma_clean_between(b, o, st1, st2, fin);
        }
    }
}

proof fn lemma_object_members_decoded(b: Seq<u8>, o: JsonParseOptions, st: ParseState, acc: Seq<PropView>)
    requires
        valid_utf8(b),
        0 <= st.pos <= b.len(),
        props_decoded(acc),
    ensures
        object_members(b, o, st, acc) matches Some((ps, st2)) ==> (st2.errors == st.errors ==> props_decoded(ps)),
    decreases b.len() - st.pos, 4int,
{
    lemma_skip_trivia(b, o, st);
    let st1 = skip_trivia(b, o, st);
    let p = st1.pos;
    lemma_object_members(b, o, st, acc);
    if let Some((ps, fin)) = object_members(b, o, st, acc) {
        if fin.errors == st.errors && peek_at(b, p) == Some(0x22u8) {
            lemma_string(b, st1);
            law_string_value(b, st1);
            let (key, st2) = string(b, st1).unwrap();
            lemma_adds_errors_step(b, o, st1, st2);
            lemma_skip_trivia(b, o, st2);
            let st3 = skip_trivia(b, o, st2);
            lemma_step_error(b, o, st3, "Expected ':'"@, st3.pos, st3.pos + 1);
            if peek_at(b, st3.pos) == Some(0x3au8) {
                let st3a = at_pos(st3, st3.pos + 1);
                lemma_step_move(b, o, st3, st3.pos + 1);
                lemma_skip_trivia(b, o, st3a);
                let st4 = skip_trivia(b, o, st3a);
                lemma_value(b, o, st4);
                lemma_value_decoded(b, o, st4);
                let (v, st5) = value(b, o, st4).unwrap();
                lemma_skip_trivia(b, o, st5);
                let st6 = skip_trivia(b, o, st5);
                let acc2 = acc.push(PropView { span: span_of(p, st5.pos), key, value: v });
                let end = if peek_at(b, st6.pos) == Some(0x2cu8) {
                    let st6a = at_pos(st6, st6.pos + 1);
                    lemma_step_move(b, o, st6, st6.pos + 1);
                    lemma_after_comma(b, o, st6a, 0x7d);
                    let st7 = after_comma(b, o, st6a, 0x7d);
                    lemma_step_trans(b, o, st6, st6a, st7);
                    lemma_object_members(b, o, st7, acc2);
                    lemma_step_trans(b, o, st6, st7, fin);
                    st7
                } else {
                    lemma_step_refl(b, o, st6);
                    st6
                };
                lemma_step_trans(b, o, st5, st6, fin);
                lemma_step_trans(b, o, st4, st5, fin);
                lemma_step_trans(b, o, st3a, st4, fin);
                lemma_step_trans(b, o, st3, st3a, fin);
                lemma_step_trans(b, o, st2, st3, fin);
                lemma_step_trans(b, o, st1, st2, fin);
                lemma_clean_between(b, o, st, st1, fin);
                lemma_clean_between(b, o, st1, st2, fin);
                lemma_clean_between(b, o, st2, st3, fin);
                lemma_clean_between(b, o, st3, st4, fin);
                lemma_clean_between(b, o, st4, st5, fin);
                lemma_clean_between(b, o, st5, st6, fin);
                assert(acc2.drop_last() =~= acc);
                assert(props_decoded(acc2));
                if peek_at(b, st6.pos) == Some(0x2cu8) {
                    lemma_clean_between(b, o, st6, end, fin);
                    if st.pos < end.pos <= b.len() {
                        lemma_object_members_decoded(b, o, end, acc2);
                    }
                }
            }
        }
    }
}

proof fn lemma_array_elements_decoded(b: Seq<u8>, o: JsonParseOptions, st: ParseState, acc: Seq<ValueView>)
    requires
        valid_utf8(b),
        0 <= st.pos <= b.len(),
        values_decoded(acc),
    ensures
        array_elements(b, o, st, acc) matches Some((es, st2)) ==> (st2.errors == st.errors ==> values_decoded(es)),
    decreases b.len() - st.pos, 4int,
{
    lemma_skip_trivia(b, o, st);
    let st1 = skip_trivia(b, o, st);
    let p = st1.pos;
    lemma_array_elements(b, o, st, acc);
    if let Some((es, fin)) = array_elements(b, o, st, acc) {
        if fin.errors == st.errors && peek_at(b, p) != Some(0x5du8) {
            lemma_value(b, o, st1);
            lemma_value_decoded(b, o, st1);
            let (v, st2) = value(b, o, st1).unwrap();
            lemma_skip_trivia(b, o, st2);
            let st3 = skip_trivia(b, o, st2);
            let acc2 = acc.push(v);
            let end = if peek_at(b, st3.pos) == Some(0x2cu8) {
                let st3a = at_pos(st3, st3.pos + 1);
                lemma_step_move(b, o, st3, st3.pos + 1);
                lemma_after_comma(b, o, st3a, 0x5d);
                let st4 = after_comma(b, o, st3a, 0x5d);
                lemma_step_trans(b, o, st3, st3a, st4);
                lemma_array_elements(b, o, st4, acc2);
                lemma_step_trans(b, o, st3, st4, fin);
                st4
            } else {
                lemma_step_refl(b, o, st3);
                st3
            };
            lemma_step_trans(b, o, st2, st3, fin);
            lemma_step_trans(b, o, st1, st2, fin);
            lemma_clean_between(b, o, st, st1, fin);
            lemma_clean_between(b, o, st1, st2, fin);
            lemma_clean_between(b, o, st2, st3, fin);
            assert(acc2.drop_last() =~= acc);
            assert(values_decoded(acc2));
            if peek_at(b, st3.pos) == Some(0x2cu8) {
                lemma_clean_between(b, o, st3, end, fin);
                if st.pos < end.pos <= b.len() {
                    lemma_array_elements_decoded(b, o, end, acc2);
                }
            }
        }
    }
}

/// In a result without errors, every string (keys included) has for value
/// what its text stands for, escape sequences resolved (see [`unescaped`]).
pub proof fn law_strings_decoded(b: Seq<u8>, o: JsonParseOptions)
    requires
        valid_utf8(b),
        parse_outcome(b, o) matches Some(out) && out.errors.len() == 0,
    ensures
        strings_decoded(parse_outcome(b, o).unwrap().value),
{
    let st0 = initial_state();
    lemma_skip_trivia(b, o, st0);
    let st1 = skip_trivia(b, o, st0);
    lemma_value(b, o, st1);
    lemma_value_decoded(b, o, st1);
    let (v, st2) = value(b, o, st1).unwrap();
    lemma_skip_trivia(b, o, st2);
    let st3 = skip_trivia(b, o, st2);
    lemma_step_trans(b, o, st0, st1, st2);
    lemma_step_trans(b, o, st0, st2, st3);
    lemma_step_error(b, o, st3, "Unexpected content after JSON value"@, st3.pos, st3.pos + 1);
    assert(st2.errors.len() == 0);
    assert(st1.errors.len() == 0);
    assert(st2.errors == st1.errors);
}

// ---------------------------------------------------------------------------
// Lists close after their last member
// ---------------------------------------------------------------------------

/// Where skipping trivia stops depends on where it starts alone.
proof fn lemma_trivia_pos(b: Seq<u8>, o1: JsonParseOptions, st1: ParseState, o2: JsonParseOptions, st2: ParseState)
    requires
        0 <= st1.pos <= b.len(),
        st2.pos == st1.pos,
    ensures
        skip_trivia(b, o1, st1).pos == skip_trivia(b, o2, st2).pos,
    decreases b.len() - st1.pos,
{
    let p = skip_ws(b, st1.pos);
    lemma_skip_ws(b, st1.pos);
    let line = starts_with2(b, p, SLASH, SLASH);
    let block = starts_with2(b, p, SLASH, STAR);
    if line || block {
        let a2 = if o1.allow_comments {
            at_pos(st1, p)
        } else {
            with_error(at_pos(st1, p), "Comments are not allowed in JSON"@, p, p + 2)
        };
        let c2 = if o2.allow_comments {
            at_pos(st2, p)
        } else {
            with_error(at_pos(st2, p), "Comments are not allowed in JSON"@, p, p + 2)
        };
        let a3 = if line {
            line_comment(b, a2)
        } else {
            block_comment(b, a2)
        };
        let c3 = if line {
            line_comment(b, c2)
        } else {
            block_comment(b, c2)
        };
        assert(a3.pos == c3.pos);
        if st1.pos < a3.pos <= b.len() {
            lemma_trivia_pos(b, o1, a3, o2, c3);
        }
    }
}

/// Whether only whitespace and comments stand between the offsets `x` and
/// `y`, `y` being the first offset from `x` on that holds neither.
pub open spec fn trivia_between(b: Seq<u8>, x: int, y: int) -> bool {
    skip_trivia(b, jsonc_options(), at_pos(initial_state(), x)).pos == y
}

/// Whether every object and array in `v` that has members closes right after
/// its last one: between the end of the last member and the closing bracket
/// stand only whitespace and comments, no comma.
pub open spec fn closes_after_last(b: Seq<u8>, v: ValueView) -> bool
    decreases v,
{
    match v {
        ValueView::Object(sp, ps) => {
            &&& props_close_after_last(b, ps)
            &&& ps.len() > 0 ==> trivia_between(b, ps.last().span.end as int, sp.end - 1)
        },
        ValueView::Array(sp, es) => {
            &&& values_close_after_last(b, es)
            &&& es.len() > 0 ==> trivia_between(b, view_span(es.last()).end as int, sp.end - 1)
        },
        _ => true,
    }
}

pub open spec fn props_close_after_last(b: Seq<u8>, ps: Seq<PropView>) -> bool
    decreases ps,
{
    if ps.len() == 0 {
        true
    } else {
        props_close_after_last(b, ps.drop_last()) && closes_after_last(b, ps.last().value)
    }
}

pub open spec fn values_close_after_last(b: Seq<u8>, es: Seq<ValueView>) -> bool
    decreases es,
{
    if es.len() == 0 {
        true
    } else {
        values_close_after_last(b, es.drop_last()) && closes_after_last(b, es.last())
    }
}

proof fn lemma_value_closes(b: Seq<u8>, o: JsonParseOptions, st: ParseState)
    requires
        0 <= st.pos <= b.len(),
        b.len() <= u32::MAX,
        !o.allow_trailing_commas,
    ensures
        value(b, o, st) matches Some((v, st2)) ==> (st2.errors == st.errors ==> closes_after_last(b, v)),
    decreases b.len() - st.pos, 3int,
{
    lemma_skip_trivia(b, o, st);
    lemma_value(b, o, st);
    let st1 = skip_trivia(b, o, st);
    let p = st1.pos;
    if peek_at(b, p) == Some(LBRACE) {
        lemma_object(b, o, st1);
        lemma_object_closes(b, o, st1);
        if let Some((v, st2)) = object(b, o, st1) {
            if st2.errors == st.errors {
                lemma_clean_between(b, o, st, st1, st2);
            }
        }
    } else if peek_at(b, p) == Some(LBRACKET) {
        lemma_array(b, o, st1);
        lemma_array_closes(b, o, st1);
        if let Some((v, st2)) = array(b, o, st1) {
            if st2.errors == st.errors {
                lemma_clean_between(b, o, st, st1, st2);
            }
        }
    }
}

proof fn lemma_object_closes(b: Seq<u8>, o: JsonParseOptions, st: ParseState)
    requires
        0 <= st.pos < b.len(),
        b.len() <= u32::MAX,
        !o.allow_trailing_commas,
    ensures
        object(b, o, st) matches Some((v, st2)) ==> (st2.errors == st.errors ==> closes_after_last(b, v)),
    decreases b.len() - st.pos, 2int,
{
    let start = st.pos;
    let st0 = at_pos(st, start + 1);
    lemma_step_move(b, o, st, start + 1);
    lemma_skip_trivia(b, o, st0);
    let st1 = skip_trivia(b, o, st0);
    lemma_step_trans(b, o, st, st0, st1);
    lemma_object(b, o, st);
    if let Some((v, fin)) = object(b, o, st) {
        if fin.errors == st.errors {
            let props = if peek_at(b, st1.pos) != Some(RBRACE) {
                lemma_object_members(b, o, st1, Seq::empty());
                lemma_members_close(b, o, st1, Seq::empty());
                object_members(b, o, st1, Seq::empty())
            } else {
                lemma_step_refl(b, o, st1);
                Some((Seq::<PropView>::empty(), st1))
            };
            let (ps, st2) = props.unwrap();
            lemma_skip_trivia(b, o, st2);
            let st3 = skip_trivia(b, o, st2);
            lemma_step_error(b, o, st3, "Expected '}'"@, st3.pos, st3.pos + 1);
            lemma_step_refl(b, o, st3);
            if st3.pos < b.len() {
                lemma_step_move(b, o, st3, st3.pos + 1);
            }
            lemma_step_trans(b, o, st2, st3, fin);
            lemma_step_trans(b, o, st1, st2, fin);
            lemma_clean_between(b, o, st, st1, fin);
            lemma_clean_between(b, o, st1, st2, fin);
            lemma_clean_between(b, o, st2, st3, fin);
            assert(peek_at(b, st3.pos) == Some(RBRACE));
            assert(fin.pos == st3.pos + 1);
        }
    }
}

#[verifier::spinoff_prover]
#[verifier::rlimit(60)]
proof fn lemma_members_close(b: Seq<u8>, o: JsonParseOptions, st: ParseState, acc: Seq<PropView>)
    requires
        0 <= st.pos <= b.len(),
        b.len() <= u32::MAX,
        !o.allow_trailing_commas,
        props_close_after_last(b, acc),
    ensures
        object_members(b, o, st, acc) matches Some((ps, st2)) ==> (st2.errors == st.errors ==> {
            &&& props_close_after_last(b, ps)
            &&& ps.len() >= acc.len()
            &&& skip_trivia(b, o, st2).pos == st2.pos
            &&& ps.len() > acc.len() ==> trivia_between(b, ps.last().span.end as int, st2.pos)
            &&& ps.len() == acc.len() ==> peek_at(b, skip_trivia(b, o, st).pos) == Some(RBRACE)
        }),
    decreases b.len() - st.pos, 4int,
{
    lemma_skip_trivia(b, o, st);
    let st1 = skip_trivia(b, o, st);
    let p = st1.pos;
    lemma_trivia_idempotent(b, o, st);
    lemma_object_members(b, o, st, acc);
    if let Some((ps, fin)) = object_members(b, o, st, acc) {
        if fin.errors == st.errors && peek_at(b, p) == Some(QUOTE) {
            lemma_string(b, st1);
            let (key, st2) = string(b, st1).unwrap();
            lemma_adds_errors_step(b, o, st1, st2);
            lemma_skip_trivia(b, o, st2);
            let st3 = skip_trivia(b, o, st2);
            lemma_step_error(b, o, st3, "Expected ':'"@, st3.pos, st3.pos + 1);
            let st3a = at_pos(st3, st3.pos + 1);
            lemma_step_move(b, o, st3, st3.pos + 1);
            lemma_skip_trivia(b, o, st3a);
            let st4 = skip_trivia(b, o, st3a);
            lemma_value(b, o, st4);
            lemma_value_closes(b, o, st4);
            let (v, st5) = value(b, o, st4).unwrap();
            lemma_skip_trivia(b, o, st5);
            let st6 = skip_trivia(b, o, st5);
            lemma_trivia_idempotent(b, o, st5);
            lemma_trivia_pos(b, jsonc_options(), at_pos(initial_state(), st5.pos), o, st5);
            let acc2 = acc.push(PropView { span: span_of(p, st5.pos), key, value: v });
            assert(acc2.drop_last() =~= acc);
            if peek_at(b, st6.pos) == Some(COMMA) {
                let st6a = at_pos(st6, st6.pos + 1);
                lemma_step_move(b, o, st6, st6.pos + 1);
                lemma_after_comma(b, o, st6a, RBRACE);
                let st7 = after_comma(b, o, st6a, RBRACE);
                lemma_skip_trivia(b, o, st6a);
                lemma_trivia_idempotent(b, o, st6a);
                let st6b = skip_trivia(b, o, st6a);
                lemma_step_error(b, o, st6b, "Trailing commas are not allowed in JSON"@, st6b.pos - 1, st6b.pos);
                lemma_step_trans(b, o, st6, st6a, st7);
                lemma_object_members(b, o, st7, acc2);
                lemma_step_trans(b, o, st6, st7, fin);
                lemma_step_trans(b, o, st5, st6, fin);
                lemma_step_trans(b, o, st4, st5, fin);
                lemma_step_trans(b, o, st3a, st4, fin);
                lemma_step_trans(b, o, st3, st3a, fin);
                lemma_step_trans(b, o, st2, st3, fin);
                lemma_step_trans(b, o, st1, st2, fin);
                lemma_clean_between(b, o, st, st1, fin);
                lemma_clean_between(b, o, st1, st2, fin);
                lemma_clean_between(b, o, st2, st3, fin);
                lemma_clean_between(b, o, st3, st4, fin);
                lemma_clean_between(b, o, st4, st5, fin);
                lemma_clean_between(b, o, st5, st6, fin);
                lemma_clean_between(b, o, st6, st7, fin);
                lemma_clean_between(b, o, st6a, st6b, st7);
                assert(st7 == st6b);
                lemma_members_close(b, o, st7, acc2);
            } else {
                lemma_step_refl(b, o, st6);
                lemma_step_trans(b, o, st5, st6, fin);
                lemma_step_trans(b, o, st4, st5, fin);
                lemma_step_trans(b, o, st3a, st4, fin);
                lemma_step_trans(b, o, st3, st3a, fin);
                lemma_step_trans(b, o, st2, st3, fin);
                lemma_step_trans(b, o, st1, st2, fin);
                lemma_clean_between(b, o, st, st1, fin);
                lemma_clean_between(b, o, st1, st2, fin);
                lemma_clean_between(b, o, st2, st3, fin);
                lemma_clean_between(b, o, st3, st4, fin);
                lemma_clean_between(b, o, st4, st5, fin);
            }
        }
    }
}

proof fn lemma_array_closes(b: Seq<u8>, o: JsonParseOptions, st: ParseState)
    requires
        0 <= st.pos < b.len(),
        b.len() <= u32::MAX,
        !o.allow_trailing_commas,
    ensures
        array(b, o, st) matches Some((v, st2)) ==> (st2.errors == st.errors ==> closes_after_last(b, v)),
    decreases b.len() - st.pos, 2int,
{
    let start = st.pos;
    let st0 = at_pos(st, start + 1);
    lemma_step_move(b, o, st, start + 1);
    lemma_skip_trivia(b, o, st0);
    let st1 = skip_trivia(b, o, st0);
    lemma_step_trans(b, o, st, st0, st1);
    lemma_array(b, o, st);
    if let Some((v, fin)) = array(b, o, st) {
        if fin.errors == st.errors {
            let elems = if peek_at(b, st1.pos) != Some(RBRACKET) {
                lemma_array_elements(b, o, st1, Seq::empty());
                lemma_elements_close(b, o, st1, Seq::empty());
                array_elements(b, o, st1, Seq::empty())
            } else {
                lemma_step_refl(b, o, st1);
                Some((Seq::<ValueView>::empty(), st1))
            };
            let (es, st2) = elems.unwrap();
            lemma_skip_trivia(b, o, st2);
            let st3 = skip_trivia(b, o, st2);
            lemma_step_error(b, o, st3, "Expected ']'"@, st3.pos, st3.pos + 1);
            lemma_step_refl(b, o, st3);
            if st3.pos < b.len() {
                lemma_step_move(b, o, st3, st3.pos + 1);
            }
            lemma_step_trans(b, o, st2, st3, fin);
            lemma_step_trans(b, o, st1, st2, fin);
            lemma_clean_between(b, o, st, st1, fin);
            lemma_clean_between(b, o, st1, st2, fin);
            lemma_clean_between(b, o, st2, st3, fin);
            assert(peek_at(b, st3.pos) == Some(RBRACKET));
            assert(fin.pos == st3.pos + 1);
        }
    }
}

#[verifier::spinoff_prover]
#[verifier::rlimit(60)]
proof fn lemma_elements_close(b: Seq<u8>, o: JsonParseOptions, st: ParseState, acc: Seq<ValueView>)
    requires
        0 <= st.pos <= b.len(),
        b.len() <= u32::MAX,
        !o.allow_trailing_commas,
        values_close_after_last(b, acc),
    ensures
        array_elements(b, o, st, acc) matches Some((es, st2)) ==> (st2.errors == st.errors ==> {
            &&& values_close_after_last(b, es)
            &&& es.len() >= acc.len()
            &&& skip_trivia(b, o, st2).pos == st2.pos
            &&& es.len() > acc.len() ==> trivia_between(b, view_span(es.last()).end as int, st2.pos)
            &&& es.len() == acc.len() ==> peek_at(b, skip_trivia(b, o, st).pos) == Some(RBRACKET)
        }),
    decreases b.len() - st.pos, 4int,
{
    lemma_skip_trivia(b, o, st);
    let st1 = skip_trivia(b, o, st);
    let p = st1.pos;
    lemma_trivia_idempotent(b, o, st);
    lemma_array_elements(b, o, st, acc);
    if let Some((es, fin)) = array_elements(b, o, st, acc) {
        if fin.errors == st.errors && peek_at(b, p) != Some(RBRACKET) {
            lemma_value(b, o, st1);
            lemma_value_closes(b, o, st1);
            lemma_value_tree(b, o, st1);
            let (v, st2) = value(b, o, st1).unwrap();
            lemma_skip_trivia(b, o, st2);
            let st3 = skip_trivia(b, o, st2);
            lemma_trivia_idempotent(b, o, st2);
            lemma_trivia_pos(b, jsonc_options(), at_pos(initial_state(), st2.pos), o, st2);
            let acc2 = acc.push(v);
            assert(acc2.drop_last() =~= acc);
            if peek_at(b, st3.pos) == Some(COMMA) {
                let st3a = at_pos(st3, st3.pos + 1);
                lemma_step_move(b, o, st3, st3.pos + 1);
                lemma_after_comma(b, o, st3a, RBRACKET);
                let st4 = after_comma(b, o, st3a, RBRACKET);
                lemma_skip_trivia(b, o, st3a);
                lemma_trivia_idempotent(b, o, st3a);
                let st3b = skip_trivia(b, o, st3a);
                lemma_step_error(b, o, st3b, "Trailing commas are not allowed in JSON"@, st3b.pos - 1, st3b.pos);
                lemma_step_trans(b, o, st3, st3a, st4);
                lemma_array_elements(b, o, st4, acc2);
                lemma_step_trans(b, o, st3, st4, fin);
                lemma_step_trans(b, o, st2, st3, fin);
                lemma_step_trans(b, o, st1, st2, fin);
                lemma_clean_between(b, o, st, st1, fin);
                lemma_clean_between(b, o, st1, st2, fin);
                lemma_clean_between(b, o, st2, st3, fin);
                lemma_clean_between(b, o, st3, st4, fin);
                lemma_clean_between(b, o, st3a, st3b, st4);
                assert(st4 == st3b);
                lemma_elements_close(b, o, st4, acc2);
            } else {
                lemma_step_refl(b, o, st3);
                lemma_step_trans(b, o, st2, st3, fin);
                lemma_step_trans(b, o, st1, st2, fin);
                lemma_clean_between(b, o, st, st1, fin);
                lemma_clean_between(b, o, st1, st2, fin);
            }
        }
    }
}

/// Where trailing commas are not allowed, a result without errors has none:
/// every object and array closes right after its last member (see
/// [`closes_after_last`]; offsets that fit a span's 32 bits assumed).
pub proof fn law_no_trailing_commas(b: Seq<u8>, o: JsonParseOptions)
    requires
        !o.allow_trailing_commas,
        b.len() <= u32::MAX,
        parse_outcome(b, o) matches Some(out) && out.errors.len() == 0,
    ensures
        closes_after_last(b, parse_outcome(b, o).unwrap().value),
{
    let st0 = initial_state();
    lemma_skip_trivia(b, o, st0);
    let st1 = skip_trivia(b, o, st0);
    lemma_value(b, o, st1);
    lemma_value_closes(b, o, st1);
    let (v, st2) = value(b, o, st1).unwrap();
    lemma_skip_trivia(b, o, st2);
    let st3 = skip_trivia(b, o, st2);
    lemma_step_trans(b, o, st0, st1, st2);
    lemma_step_trans(b, o, st0, st2, st3);
    lemma_step_error(b, o, st3, "Unexpected content after JSON value"@, st3.pos, st3.pos + 1);
    assert(st2.errors.len() == 0);
    assert(st1.errors.len() == 0);
    assert(st2.errors == st1.errors);
}

// ---------------------------------------------------------------------------
// One reader at a time
// ---------------------------------------------------------------------------

/// A `//` comment runs to the end of its line: it is recorded with its span
/// from the `//` to the newline (or the end of the source) and its text after
/// the `//`, which holds no newline; the parser moves to the end of that span
/// and reports nothing (offsets that fit a span's 32 bits assumed).
pub proof fn law_line_comment(b: Seq<u8>, st: ParseState)
    requires
        0 <= st.pos,
        starts_with2(b, st.pos, SLASH, SLASH),
        b.len() <= u32::MAX,
    ensures
        ({
            let r = line_comment(b, st);
            let c = r.comments.last();
            &&& r.comments == st.comments.push(c)
            &&& c.kind == JsonCommentKind::Line
            &&& c.span == span_of(st.pos, r.pos)
            &&& comment_in_source(b, c)
            &&& r.errors == st.errors
        }),
{
    lemma_line_comment(b, st);
    let r = line_comment(b, st);
    assert(r.comments =~= st.comments.push(r.comments.last()));
}

/// A `/*` comment ends at the first `*/` after the opening (comments do not
/// nest): it is recorded with its span from `/*` to that `*/` included and
/// the text between them, and nothing is reported. Where no `*/` follows, no
/// comment is recorded and one error, "Unterminated block comment", is.
pub proof fn law_block_comment(b: Seq<u8>, st: ParseState)
    requires
        0 <= st.pos,
        starts_with2(b, st.pos, SLASH, STAR),
    ensures
        ({
            let r = block_comment(b, st);
            let k = r.pos - 2;
            if exists|m: int| st.pos + 2 <= m && #[trigger] starts_with2(b, m, STAR, SLASH) {
                &&& starts_with2(b, k, STAR, SLASH)
                &&& forall|m: int| st.pos + 2 <= m < k ==> !#[trigger] starts_with2(b, m, STAR, SLASH)
                &&& r.comments == st.comments.push(
                    CommentView {
                        span: span_of(st.pos, k + 2),
                        value: b.subrange(st.pos + 2, k),
                        kind: JsonCommentKind::Block,
                    },
                )
                &&& r.errors == st.errors
            } else {
                &&& r.comments == st.comments
                &&& r.errors == st.errors.push(
                    ErrorView { message: "Unterminated block comment"@, start: st.pos, end: r.pos },
                )
            }
        }),
{
    let p = st.pos + 2;
    lemma_scan_block(b, p);
    let q = scan_block(b, p);
    if exists|m: int| st.pos + 2 <= m && #[trigger] starts_with2(b, m, STAR, SLASH) {
        let m = choose|m: int| st.pos + 2 <= m && #[trigger] starts_with2(b, m, STAR, SLASH);
        assert(q + 1 < b.len()) by {
            if q + 1 >= b.len() {
                assert(m < q);
            }
        }
    } else {
        if q + 1 < b.len() {
            assert(starts_with2(b, q, STAR, SLASH));
        }
    }
}

/// JSON whitespace: space, tab, line feed and carriage return.
pub open spec fn json_ws(c: u8) -> bool {
    c == 0x20 || c == 0x09 || c == 0x0a || c == 0x0d
}

/// Skipping whitespace and comments stops at the end of the source or at a
/// byte that is neither JSON whitespace (see [`json_ws`]) nor the start of a
/// comment, never before where it started.
pub proof fn law_trivia_stop(b: Seq<u8>, o: JsonParseOptions, st: ParseState)
    requires
        0 <= st.pos <= b.len(),
    ensures
        ({
            let r = skip_trivia(b, o, st).pos;
            &&& st.pos <= r <= b.len()
            &&& r == b.len() || (!json_ws(b[r]) && !starts_with2(b, r, SLASH, SLASH) && !starts_with2(
                b,
                r,
                SLASH,
                STAR,
            ))
        }),
    decreases b.len() - st.pos,
{
    lemma_skip_trivia(b, o, st);
    lemma_skip_ws(b, st.pos);
    lemma_skip_ws_stop(b, st.pos);
    let p = skip_ws(b, st.pos);
    let line = starts_with2(b, p, SLASH, SLASH);
    let block = starts_with2(b, p, SLASH, STAR);
    if line || block {
        let st1 = at_pos(st, p);
        let st2 = if o.allow_comments {
            st1
        } else {
            with_error(st1, "Comments are not allowed in JSON"@, p, p + 2)
        };
        let st3 = if line {
            line_comment(b, st2)
        } else {
            block_comment(b, st2)
        };
        if line {
            lemma_line_comment(b, st2);
        } else {
            lemma_block_comment(b, st2);
        }
        assert(st.pos < st3.pos <= b.len());
        assert(skip_trivia(b, o, st) == skip_trivia(b, o, st3));
        law_trivia_stop(b, o, st3);
    } else {
        assert(skip_trivia(b, o, st) == at_pos(st, p));
    }
}

proof fn lemma_skip_ws_stop(b: Seq<u8>, p: int)
    requires
        0 <= p <= b.len(),
    ensures
        skip_ws(b, p) == b.len() || !is_ws(b[skip_ws(b, p)]),
    decreases b.len() - p,
{
    if p < b.len() {
        lemma_skip_ws_stop(b, p + 1);
    }
}

/// A value read from `st` on: only whitespace and comments stand between
/// `st.pos` and the start of its span, the parser moves to the end of its
/// span, which lies within the source, and the read either moves forward or
/// reports an error (offsets that fit a span's 32 bits assumed).
#[verifier::spinoff_prover]
#[verifier::rlimit(40)]
pub proof fn law_value_token(b: Seq<u8>, o: JsonParseOptions, st: ParseState)
    requires
        0 <= st.pos <= b.len(),
        b.len() <= u32::MAX,
    ensures
        value(b, o, st) matches Some((v, st2)) ==> {
            &&& view_span(v).end == st2.pos
            &&& st.pos <= view_span(v).start <= view_span(v).end <= b.len()
            &&& trivia_between(b, st.pos, view_span(v).start as int)
            &&& (st2.pos > st.pos || st2.errors.len() > st.errors.len())
        },
{
    lemma_skip_trivia(b, o, st);
    lemma_value(b, o, st);
    lemma_value_tree(b, o, st);
    let st1 = skip_trivia(b, o, st);
    lemma_trivia_pos(b, jsonc_options(), at_pos(initial_state(), st.pos), o, st);
    let p = st1.pos;
    if let Some((v, st2)) = value(b, o, st) {
        if p == st.pos {
            match peek_at(b, p) {
                Some(c) => {
                    if c == QUOTE {
                        lemma_string(b, st1);
                    } else if c == LOWER_T || c == LOWER_F || c == LOWER_N {
                        assert(is_alpha(c));
                        lemma_scan_alpha(b, p + 1);
                        assert(scan_alpha(b, p) > p);
                    } else if c == MINUS || is_digit(c) {
                        lemma_number(b, st1);
                    }
                },
                None => {},
            }
        }
    }
}

/// Whether the byte at `k` is whitespace, lies in a comment recorded between
/// `st1` and `st2`, or lies in the range of an error reported between them.
pub open spec fn trivia_covered(b: Seq<u8>, st1: ParseState, st2: ParseState, k: int) -> bool {
    ||| json_ws(b[k])
    ||| exists|i: int|
        st1.comments.len() <= i < st2.comments.len() && (#[trigger] st2.comments[i]).span.start <= k
            < st2.comments[i].span.end
    ||| exists|i: int|
        st1.errors.len() <= i < st2.errors.len() && (#[trigger] st2.errors[i]).start <= k < st2.errors[i].end
}

proof fn lemma_skip_ws_all(b: Seq<u8>, p: int)
    requires
        0 <= p <= b.len(),
    ensures
        forall|k: int| p <= k < skip_ws(b, p) ==> is_ws(#[trigger] b[k]),
    decreases b.len() - p,
{
    if p < b.len() && is_ws(b[p]) {
        lemma_skip_ws_all(b, p + 1);
    }
}

proof fn lemma_covered_extend(b: Seq<u8>, st: ParseState, st3: ParseState, r: ParseState, k: int)
    requires
        trivia_covered(b, st, st3, k),
        st3.comments.is_prefix_of(r.comments),
        st3.errors.is_prefix_of(r.errors),
    ensures
        trivia_covered(b, st, r, k),
{
    if !json_ws(b[k]) {
        if exists|i: int|
            st.comments.len() <= i < st3.comments.len() && (#[trigger] st3.comments[i]).span.start <= k
                < st3.comments[i].span.end {
            let i = choose|i: int|
                st.comments.len() <= i < st3.comments.len() && (#[trigger] st3.comments[i]).span.start <= k
                    < st3.comments[i].span.end;
            assert(r.comments[i] == st3.comments[i]);
        } else {
            let i = choose|i: int|
                st.errors.len() <= i < st3.errors.len() && (#[trigger] st3.errors[i]).start <= k < st3.errors[i].end;
            assert(r.errors[i] == st3.errors[i]);
        }
    }
}

/// Every byte that skipping whitespace and comments passes over is
/// whitespace, lies in a comment it records, or lies in the range of an error
/// it reports (a block comment never closed, or a comment that the options
/// forbid); offsets that fit a span's 32 bits assumed.
pub proof fn law_trivia_covered(b: Seq<u8>, o: JsonParseOptions, st: ParseState)
    requires
        0 <= st.pos <= b.len(),
        b.len() <= u32::MAX,
    ensures
        forall|k: int|
            st.pos <= k < skip_trivia(b, o, st).pos ==> #[trigger] trivia_covered(b, st, skip_trivia(b, o, st), k),
    decreases b.len() - st.pos,
{
    let r = skip_trivia(b, o, st);
    lemma_skip_trivia(b, o, st);
    lemma_skip_ws(b, st.pos);
    lemma_skip_ws_all(b, st.pos);
    let p = skip_ws(b, st.pos);
    let line = starts_with2(b, p, SLASH, SLASH);
    let block = starts_with2(b, p, SLASH, STAR);
    if line || block {
        let st1 = at_pos(st, p);
        let st2 = if o.allow_comments {
            st1
        } else {
            with_error(st1, "Comments are not allowed in JSON"@, p, p + 2)
        };
        let st3 = if line {
            line_comment(b, st2)
        } else {
            block_comment(b, st2)
        };
        if line {
            lemma_line_comment(b, st2);
        } else {
            lemma_block_comment(b, st2);
            lemma_scan_block(b, p + 2);
        }
        assert(skip_trivia(b, o, st) == skip_trivia(b, o, st3));
        law_trivia_covered(b, o, st3);
        lemma_skip_trivia(b, o, st3);
        assert forall|k: int| st.pos <= k < r.pos implies #[trigger] trivia_covered(b, st, r, k) by {
            if k < p {
            } else if k < st3.pos {
                if st3.comments.len() > st2.comments.len() {
                    let i = st2.comments.len() as int;
                    assert(st3.comments[i].span.start <= k < st3.comments[i].span.end);
                    assert(trivia_covered(b, st, st3, k));
                } else {
                    let i = st3.errors.len() - 1;
                    assert(st3.errors[i].start <= k < st3.errors[i].end);
                    assert(trivia_covered(b, st, st3, k));
                }
                lemma_covered_extend(b, st, st3, r, k);
            } else {
                assert(trivia_covered(b, st3, r, k));
            }
        }
    }
}

// ---------------------------------------------------------------------------
// The shape of a clean parse
// ---------------------------------------------------------------------------

/// Whether a `,` stands between `x` and `y`, with only whitespace and
/// comments around it.
pub open spec fn comma_between(b: Seq<u8>, x: int, y: int) -> bool {
    exists|c: int| #[trigger] trivia_between(b, x, c) && b[c] == COMMA && trivia_between(b, c + 1, y)
}

/// Whether a `:` stands between `x` and `y`, with only whitespace and
/// comments around it.
pub open spec fn colon_between(b: Seq<u8>, x: int, y: int) -> bool {
    exists|c: int| #[trigger] trivia_between(b, x, c) && b[c] == COLON && trivia_between(b, c + 1, y)
}

/// Whether a list's last member, ending at `x`, is followed by its closing
/// bracket at `y`: only whitespace and comments between them, or, where the
/// options allow trailing commas, one comma among them.
pub open spec fn list_closes(b: Seq<u8>, o: JsonParseOptions, x: int, y: int) -> bool {
    trivia_between(b, x, y) || (o.allow_trailing_commas && comma_between(b, x, y))
}

/// Whether every object and array in `v` is delimited as JSON writes it: the
/// closing bracket ends its span, only whitespace and comments stand after
/// the opening bracket before the first member (or the closing one), members
/// are separated by one comma, a key from its value by one colon, and the
/// last member is followed by the closing bracket as [`list_closes`] says.
pub open spec fn delimited(b: Seq<u8>, o: JsonParseOptions, v: ValueView) -> bool
    decreases v,
{
    match v {
        ValueView::Object(sp, ps) => {
            &&& props_delimited(b, o, ps)
            &&& 0 < sp.end <= b.len()
            &&& b[sp.end - 1] == RBRACE
            &&& if ps.len() == 0 {
                trivia_between(b, sp.start + 1, sp.end - 1)
            } else {
                &&& trivia_between(b, sp.start + 1, ps[0].span.start as int)
                &&& list_closes(b, o, ps.last().span.end as int, sp.end - 1)
            }
        },
        ValueView::Array(sp, es) => {
            &&& values_delimited(b, o, es)
            &&& 0 < sp.end <= b.len()
            &&& b[sp.end - 1] == RBRACKET
            &&& if es.len() == 0 {
                trivia_between(b, sp.start + 1, sp.end - 1)
            } else {
                &&& trivia_between(b, sp.start + 1, view_span(es[0]).start as int)
                &&& list_closes(b, o, view_span(es.last()).end as int, sp.end - 1)
            }
        },
        _ => true,
    }
}

pub open spec fn props_delimited(b: Seq<u8>, o: JsonParseOptions, ps: Seq<PropView>) -> bool
    decreases ps,
{
    if ps.len() == 0 {
        true
    } else {
        let p = ps.last();
        &&& props_delimited(b, o, ps.drop_last())
        &&& colon_between(b, p.key.span.end as int, view_span(p.value).start as int)
        &&& delimited(b, o, p.value)
        &&& ps.len() > 1 ==> comma_between(b, ps.drop_last().last().span.end as int, p.span.start as int)
    }
}

pub open spec fn values_delimited(b: Seq<u8>, o: JsonParseOptions, es: Seq<ValueView>) -> bool
    decreases es,
{
    if es.len() == 0 {
        true
    } else {
        &&& values_delimited(b, o, es.drop_last())
        &&& delimited(b, o, es.last())
        &&& es.len() > 1 ==> comma_between(
            b,
            view_span(es.drop_last().last()).end as int,
            view_span(es.last()).start as int,
        )
    }
}

/// `trivia_between` from a state's position to where skipping stops.
proof fn lemma_trivia_between_skip(b: Seq<u8>, o: JsonParseOptions, st: ParseState)
    requires
        0 <= st.pos <= b.len(),
    ensures
        trivia_between(b, st.pos, skip_trivia(b, o, st).pos),
{
    lemma_trivia_pos(b, jsonc_options(), at_pos(initial_state(), st.pos), o, st);
}

proof fn lemma_value_delimited(b: Seq<u8>, o: JsonParseOptions, st: ParseState)
    requires
        0 <= st.pos <= b.len(),
        b.len() <= u32::MAX,
    ensures
        value(b, o, st) matches Some((v, st2)) ==> (st2.errors == st.errors ==> delimited(b, o, v)),
    decreases b.len() - st.pos, 3int,
{
    lemma_skip_trivia(b, o, st);
    lemma_value(b, o, st);
    let st1 = skip_trivia(b, o, st);
    let p = st1.pos;
    if peek_at(b, p) == Some(LBRACE) {
        lemma_object(b, o, st1);
        lemma_object_delimited(b, o, st1);
        if let Some((v, st2)) = object(b, o, st1) {
            if st2.errors == st.errors {
                lemma_clean_between(b, o, st, st1, st2);
            }
        }
    } else if peek_at(b, p) == Some(LBRACKET) {
        lemma_array(b, o, st1);
        lemma_array_delimited(b, o, st1);
        if let Some((v, st2)) = array(b, o, st1) {
            if st2.errors == st.errors {
                lemma_clean_between(b, o, st, st1, st2);
            }
        }
    }
}

#[verifier::spinoff_prover]
#[verifier::rlimit(40)]
proof fn lemma_object_delimited(b: Seq<u8>, o: JsonParseOptions, st: ParseState)
    requires
        0 <= st.pos < b.len(),
        b.len() <= u32::MAX,
    ensures
        object(b, o, st) matches Some((v, st2)) ==> (st2.errors == st.errors ==> delimited(b, o, v)),
    decreases b.len() - st.pos, 2int,
{
    let start = st.pos;
    let st0 = at_pos(st, start + 1);
    lemma_step_move(b, o, st, start + 1);
    lemma_skip_trivia(b, o, st0);
    let st1 = skip_trivia(b, o, st0);
    lemma_step_trans(b, o, st, st0, st1);
    lemma_object(b, o, st);
    lemma_trivia_between_skip(b, o, st0);
    lemma_trivia_idempotent(b, o, st0);
    if let Some((v, fin)) = object(b, o, st) {
        if fin.errors == st.errors {
            let props = if peek_at(b, st1.pos) != Some(RBRACE) {
                lemma_object_members(b, o, st1, Seq::empty());
                lemma_members_delimited(b, o, st1, Seq::empty(), 0);
                object_members(b, o, st1, Seq::empty())
            } else {
                lemma_step_refl(b, o, st1);
                Some((Seq::<PropView>::empty(), st1))
            };
            let (ps, st2) = props.unwrap();
            lemma_skip_trivia(b, o, st2);
            let st3 = skip_trivia(b, o, st2);
            lemma_step_error(b, o, st3, "Expected '}'"@, st3.pos, st3.pos + 1);
            lemma_step_refl(b, o, st3);
            if st3.pos < b.len() {
                lemma_step_move(b, o, st3, st3.pos + 1);
            }
            lemma_step_trans(b, o, st2, st3, fin);
            lemma_step_trans(b, o, st1, st2, fin);
            lemma_clean_between(b, o, st, st1, fin);
            lemma_clean_between(b, o, st1, st2, fin);
            lemma_clean_between(b, o, st2, st3, fin);
            assert(peek_at(b, st3.pos) == Some(RBRACE));
            assert(fin.pos == st3.pos + 1);
            if ps.len() > 0 {
                assert(ps[0] == ps[0]);
            }
        }
    }
}

#[verifier::spinoff_prover]
#[verifier::rlimit(80)]
proof fn lemma_members_delimited(b: Seq<u8>, o: JsonParseOptions, st: ParseState, acc: Seq<PropView>, c: int)
    requires
        0 <= st.pos <= b.len(),
        b.len() <= u32::MAX,
        props_delimited(b, o, acc),
        acc.len() > 0 ==> {
            &&& trivia_between(b, acc.last().span.end as int, c)
            &&& 0 <= c < b.len()
            &&& b[c] == COMMA
            &&& trivia_between(b, c + 1, skip_trivia(b, o, st).pos)
        },
    ensures
        object_members(b, o, st, acc) matches Some((ps, st2)) ==> (st2.errors == st.errors ==> {
            &&& props_delimited(b, o, ps)
            &&& acc.is_prefix_of(ps)
            &&& skip_trivia(b, o, st2).pos == st2.pos
            &&& ps.len() > acc.len() ==> ps[acc.len() as int].span.start == skip_trivia(b, o, st).pos
            &&& ps.len() > acc.len() ==> list_closes(b, o, ps.last().span.end as int, st2.pos)
            &&& ps.len() == acc.len() ==> peek_at(b, skip_trivia(b, o, st).pos) == Some(RBRACE)
                && st2.pos == skip_trivia(b, o, st).pos
        }),
    decreases b.len() - st.pos, 4int,
{
    lemma_skip_trivia(b, o, st);
    let st1 = skip_trivia(b, o, st);
    let p = st1.pos;
    lemma_trivia_idempotent(b, o, st);
    lemma_object_members(b, o, st, acc);
    assert(acc.is_prefix_of(acc));
    if let Some((ps, fin)) = object_members(b, o, st, acc) {
        if fin.errors == st.errors && peek_at(b, p) == Some(QUOTE) {
            lemma_string(b, st1);
            law_string_token(b, st1);
            let (key, st2) = string(b, st1).unwrap();
            lemma_adds_errors_step(b, o, st1, st2);
            lemma_skip_trivia(b, o, st2);
            let st3 = skip_trivia(b, o, st2);
            lemma_trivia_between_skip(b, o, st2);
            lemma_step_error(b, o, st3, "Expected ':'"@, st3.pos, st3.pos + 1);
            let st3a = at_pos(st3, st3.pos + 1);
            lemma_step_move(b, o, st3, st3.pos + 1);
            lemma_skip_trivia(b, o, st3a);
            let st4 = skip_trivia(b, o, st3a);
            lemma_trivia_between_skip(b, o, st3a);
            lemma_trivia_idempotent(b, o, st3a);
            lemma_value(b, o, st4);
            lemma_value_delimited(b, o, st4);
            lemma_value_tree(b, o, st4);
            let (v, st5) = value(b, o, st4).unwrap();
            lemma_skip_trivia(b, o, st5);
            let st6 = skip_trivia(b, o, st5);
            lemma_trivia_idempotent(b, o, st5);
            lemma_trivia_between_skip(b, o, st5);
            let prop = PropView { span: span_of(p, st5.pos), key, value: v };
            let acc2 = acc.push(prop);
            assert(acc2.drop_last() =~= acc);
            assert(trivia_between(b, key.span.end as int, st3.pos));
            assert(colon_between(b, key.span.end as int, view_span(v).start as int));
            if peek_at(b, st6.pos) == Some(COMMA) {
                let st6a = at_pos(st6, st6.pos + 1);
                lemma_step_move(b, o, st6, st6.pos + 1);
                lemma_after_comma(b, o, st6a, RBRACE);
                let st7 = after_comma(b, o, st6a, RBRACE);
                lemma_skip_trivia(b, o, st6a);
                lemma_trivia_idempotent(b, o, st6a);
                lemma_trivia_between_skip(b, o, st6a);
                let st6b = skip_trivia(b, o, st6a);
                lemma_step_error(b, o, st6b, "Trailing commas are not allowed in JSON"@, st6b.pos - 1, st6b.pos);
                lemma_step_trans(b, o, st6, st6a, st7);
                lemma_object_members(b, o, st7, acc2);
                lemma_step_trans(b, o, st6, st7, fin);
                lemma_step_trans(b, o, st5, st6, fin);
                lemma_step_trans(b, o, st4, st5, fin);
                lemma_step_trans(b, o, st3a, st4, fin);
                lemma_step_trans(b, o, st3, st3a, fin);
                lemma_step_trans(b, o, st2, st3, fin);
                lemma_step_trans(b, o, st1, st2, fin);
                lemma_clean_between(b, o, st, st1, fin);
                lemma_clean_between(b, o, st1, st2, fin);
                lemma_clean_between(b, o, st2, st3, fin);
                lemma_clean_between(b, o, st3, st4, fin);
                lemma_clean_between(b, o, st4, st5, fin);
                lemma_clean_between(b, o, st5, st6, fin);
                lemma_clean_between(b, o, st6, st7, fin);
                lemma_skip_trivia(b, o, st7);
                lemma_trivia_idempotent(b, o, st7);
                if !o.allow_trailing_commas {
                    lemma_clean_between(b, o, st6a, st6b, st7);
                    assert(st7 == st6b);
                }
                assert(skip_trivia(b, o, st7).pos == st6b.pos);
                lemma_members_delimited(b, o, st7, acc2, st6.pos);
                let (ps2, fin2) = object_members(b, o, st7, acc2).unwrap();
                assert(ps2 == ps);
                assert(acc.is_prefix_of(ps)) by {
                    assert forall|i: int| 0 <= i < acc.len() implies acc[i] == ps[i] by {
                        assert(acc2[i] == acc[i]);
                    }
                }
                assert(ps[acc.len() as int] == prop) by {
                    assert(acc2[acc.len() as int] == prop);
                }
                if ps.len() == acc2.len() {
                    assert(o.allow_trailing_commas);
                    assert(comma_between(b, prop.span.end as int, fin.pos)) by {
                        assert(trivia_between(b, st5.pos, st6.pos));
                    }
                }
            } else {
                lemma_step_refl(b, o, st6);
                lemma_step_trans(b, o, st5, st6, fin);
                lemma_step_trans(b, o, st4, st5, fin);
                lemma_step_trans(b, o, st3a, st4, fin);
                lemma_step_trans(b, o, st3, st3a, fin);
                lemma_step_trans(b, o, st2, st3, fin);
                lemma_step_trans(b, o, st1, st2, fin);
                lemma_clean_between(b, o, st, st1, fin);
                lemma_clean_between(b, o, st1, st2, fin);
                lemma_clean_between(b, o, st2, st3, fin);
                lemma_clean_between(b, o, st3, st4, fin);
                lemma_clean_between(b, o, st4, st5, fin);
                assert(acc.is_prefix_of(acc2));
            }
        }
    }
}

#[verifier::spinoff_prover]
#[verifier::rlimit(40)]
proof fn lemma_array_delimited(b: Seq<u8>, o: JsonParseOptions, st: ParseState)
    requires
        0 <= st.pos < b.len(),
        b.len() <= u32::MAX,
    ensures
        array(b, o, st) matches Some((v, st2)) ==> (st2.errors == st.errors ==> delimited(b, o, v)),
    decreases b.len() - st.pos, 2int,
{
    let start = st.pos;
    let st0 = at_pos(st, start + 1);
    lemma_step_move(b, o, st, start + 1);
    lemma_skip_trivia(b, o, st0);
    let st1 = skip_trivia(b, o, st0);
    lemma_step_trans(b, o, st, st0, st1);
    lemma_array(b, o, st);
    lemma_trivia_between_skip(b, o, st0);
    lemma_trivia_idempotent(b, o, st0);
    if let Some((v, fin)) = array(b, o, st) {
        if fin.errors == st.errors {
            let elems = if peek_at(b, st1.pos) != Some(RBRACKET) {
                lemma_array_elements(b, o, st1, Seq::empty());
                lemma_elements_delimited(b, o, st1, Seq::empty(), 0);
                array_elements(b, o, st1, Seq::empty())
            } else {
                lemma_step_refl(b, o, st1);
                Some((Seq::<ValueView>::empty(), st1))
            };
            let (es, st2) = elems.unwrap();
            lemma_skip_trivia(b, o, st2);
            let st3 = skip_trivia(b, o, st2);
            lemma_step_error(b, o, st3, "Expected ']'"@, st3.pos, st3.pos + 1);
            lemma_step_refl(b, o, st3);
            if st3.pos < b.len() {
                lemma_step_move(b, o, st3, st3.pos + 1);
            }
            lemma_step_trans(b, o, st2, st3, fin);
            lemma_step_trans(b, o, st1, st2, fin);
            lemma_clean_between(b, o, st, st1, fin);
            lemma_clean_between(b, o, st1, st2, fin);
            lemma_clean_between(b, o, st2, st3, fin);
            assert(peek_at(b, st3.pos) == Some(RBRACKET));
            assert(fin.pos == st3.pos + 1);
            if es.len() > 0 {
                assert(es[0] == es[0]);
            }
        }
    }
}

#[verifier::spinoff_prover]
#[verifier::rlimit(80)]
proof fn lemma_elements_delimited(b: Seq<u8>, o: JsonParseOptions, st: ParseState, acc: Seq<ValueView>, c: int)
    requires
        0 <= st.pos <= b.len(),
        b.len() <= u32::MAX,
        values_delimited(b, o, acc),
        acc.len() > 0 ==> {
            &&& trivia_between(b, view_span(acc.last()).end as int, c)
            &&& 0 <= c < b.len()
            &&& b[c] == COMMA
            &&& trivia_between(b, c + 1, skip_trivia(b, o, st).pos)
        },
    ensures
        array_elements(b, o, st, acc) matches Some((es, st2)) ==> (st2.errors == st.errors ==> {
            &&& values_delimited(b, o, es)
            &&& acc.is_prefix_of(es)
            &&& skip_trivia(b, o, st2).pos == st2.pos
            &&& es.len() > acc.len() ==> view_span(es[acc.len() as int]).start == skip_trivia(b, o, st).pos
            &&& es.len() > acc.len() ==> list_closes(b, o, view_span(es.last()).end as int, st2.pos)
            &&& es.len() == acc.len() ==> peek_at(b, skip_trivia(b, o, st).pos) == Some(RBRACKET)
                && st2.pos == skip_trivia(b, o, st).pos
        }),
    decreases b.len() - st.pos, 4int,
{
    lemma_skip_trivia(b, o, st);
    let st1 = skip_trivia(b, o, st);
    let p = st1.pos;
    lemma_trivia_idempotent(b, o, st);
    lemma_array_elements(b, o, st, acc);
    assert(acc.is_prefix_of(acc));
    if let Some((es, fin)) = array_elements(b, o, st, acc) {
        if fin.errors == st.errors && peek_at(b, p) != Some(RBRACKET) {
            lemma_value(b, o, st1);
            lemma_value_delimited(b, o, st1);
            lemma_value_tree(b, o, st1);
            let (v, st2) = value(b, o, st1).unwrap();
            lemma_skip_trivia(b, o, st2);
            let st3 = skip_trivia(b, o, st2);
            lemma_trivia_idempotent(b, o, st2);
            lemma_trivia_between_skip(b, o, st2);
            let acc2 = acc.push(v);
            assert(acc2.drop_last() =~= acc);
            if peek_at(b, st3.pos) == Some(COMMA) {
                let st3a = at_pos(st3, st3.pos + 1);
                lemma_step_move(b, o, st3, st3.pos + 1);
                lemma_after_comma(b, o, st3a, RBRACKET);
                let st4 = after_comma(b, o, st3a, RBRACKET);
                lemma_skip_trivia(b, o, st3a);
                lemma_trivia_idempotent(b, o, st3a);
                lemma_trivia_between_skip(b, o, st3a);
                let st3b = skip_trivia(b, o, st3a);
                lemma_step_error(b, o, st3b, "Trailing commas are not allowed in JSON"@, st3b.pos - 1, st3b.pos);
                lemma_step_trans(b, o, st3, st3a, st4);
                lemma_array_elements(b, o, st4, acc2);
                lemma_step_trans(b, o, st3, st4, fin);
                lemma_step_trans(b, o, st2, st3, fin);
                lemma_step_trans(b, o, st1, st2, fin);
                lemma_clean_between(b, o, st, st1, fin);
                lemma_clean_between(b, o, st1, st2, fin);
                lemma_clean_between(b, o, st2, st3, fin);
                lemma_clean_between(b, o, st3, st4, fin);
                lemma_skip_trivia(b, o, st4);
                lemma_trivia_idempotent(b, o, st4);
                if !o.allow_trailing_commas {
                    lemma_clean_between(b, o, st3a, st3b, st4);
                    assert(st4 == st3b);
                }
                assert(skip_trivia(b, o, st4).pos == st3b.pos);
                lemma_elements_delimited(b, o, st4, acc2, st3.pos);
                assert(acc.is_prefix_of(es)) by {
                    assert forall|i: int| 0 <= i < acc.len() implies acc[i] == es[i] by {
                        assert(acc2[i] == acc[i]);
                    }
                }
                assert(es[acc.len() as int] == v) by {
                    assert(acc2[acc.len() as int] == v);
                }
                if es.len() == acc2.len() {
                    assert(o.allow_trailing_commas);
                    assert(comma_between(b, view_span(v).end as int, fin.pos)) by {
                        assert(trivia_between(b, st2.pos, st3.pos));
                    }
                }
            } else {
                lemma_step_refl(b, o, st3);
                lemma_step_trans(b, o, st2, st3, fin);
                lemma_step_trans(b, o, st1, st2, fin);
                lemma_clean_between(b, o, st, st1, fin);
                lemma_clean_between(b, o, st1, st2, fin);
                assert(acc.is_prefix_of(acc2));
            }
        }
    }
}

/// A parse without errors reads JSON as it is written: only whitespace and
/// comments stand before and after the value, and every object and array in
/// it is delimited as [`delimited`] says (offsets that fit a span's 32 bits
/// assumed).
pub proof fn law_clean_parse_shape(b: Seq<u8>, o: JsonParseOptions)
    requires
        b.len() <= u32::MAX,
        parse_outcome(b, o) matches Some(out) && out.errors.len() == 0,
    ensures
        ({
            let v = parse_outcome(b, o).unwrap().value;
            &&& delimited(b, o, v)
            &&& trivia_between(b, 0, view_span(v).start as int)
            &&& trivia_between(b, view_span(v).end as int, b.len() as int)
        }),
{
    let st0 = initial_state();
    lemma_skip_trivia(b, o, st0);
    lemma_trivia_idempotent(b, o, st0);
    lemma_trivia_between_skip(b, o, st0);
    let st1 = skip_trivia(b, o, st0);
    lemma_value(b, o, st1);
    lemma_value_delimited(b, o, st1);
    lemma_value_tree(b, o, st1);
    let (v, st2) = value(b, o, st1).unwrap();
    lemma_skip_trivia(b, o, st2);
    lemma_trivia_between_skip(b, o, st2);
    let st3 = skip_trivia(b, o, st2);
    lemma_step_trans(b, o, st0, st1, st2);
    lemma_step_trans(b, o, st0, st2, st3);
    lemma_step_error(b, o, st3, "Unexpected content after JSON value"@, st3.pos, st3.pos + 1);
    assert(st2.errors.len() == 0);
    assert(st1.errors.len() == 0);
    assert(st2.errors == st1.errors);
    assert(st3.pos == b.len());
}

// ---------------------------------------------------------------------------
// Well-escaped text reads back
// ---------------------------------------------------------------------------

/// Whether `r`, the text between a string's quotes, is escaped as JSON
/// writes it: it holds no bare `"`, and every backslash starts a well-formed
/// escape: `\"`, `\\`, `\/`, `\b`, `\f`, `\n`, `\r`, `\t`, a `\uXXXX` whose
/// code is not a surrogate, or a high-surrogate `\uXXXX` directly followed by
/// a low-surrogate one.
pub open spec fn well_escaped(r: Seq<u8>) -> bool
    decreases r.len(),
{
    if r.len() == 0 {
        true
    } else if r[0] == QUOTE {
        false
    } else if r[0] != BACKSLASH {
        let n = scan_continuation(r, 1);
        1 <= n <= r.len() && well_escaped(r.subrange(n, r.len() as int))
    } else if r.len() >= 2 && escape_letter(r[1]) is Some {
        well_escaped(r.subrange(2, r.len() as int))
    } else if r.len() >= 6 && r[1] == LOWER_U && hex4_at(r, 2) {
        let cp = hex4_value(r, 2);
        if 0xD800 <= cp <= 0xDBFF {
            &&& r.len() >= 12
            &&& r[6] == BACKSLASH
            &&& r[7] == LOWER_U
            &&& hex4_at(r, 8)
            &&& 0xDC00 <= hex4_value(r, 8) <= 0xDFFF
            &&& well_escaped(r.subrange(12, r.len() as int))
        } else if 0xDC00 <= cp <= 0xDFFF {
            false
        } else {
            well_escaped(r.subrange(6, r.len() as int))
        }
    } else {
        false
    }
}

/// Scanning continuation bytes inside `b[p..end]` finds what scanning the
/// piece alone finds, when `b[end]` is not a continuation byte.
proof fn lemma_scan_continuation_frame(b: Seq<u8>, p: int, end: int, i: int)
    requires
        0 <= p,
        1 <= i <= end - p,
        end < b.len(),
        b[end] & 0xC0 != 0x80,
    ensures
        scan_continuation(b, p + i) == p + scan_continuation(b.subrange(p, end), i),
    decreases end - p - i,
{
    let r = b.subrange(p, end);
    if i < end - p {
        assert(r[i] == b[p + i]);
        if b[p + i] & 0xC0 == 0x80 {
            lemma_scan_continuation_frame(b, p, end, i + 1);
        }
    }
}

proof fn lemma_hex4_read(b: Seq<u8>, st: ParseState)
    requires
        0 <= st.pos,
        hex4_at(b, st.pos),
    ensures
        hex4(b, st) == (Some(hex4_value(b, st.pos)), at_pos(st, st.pos + 4)),
{
    reveal_with_fuel(hex4_from, 5);
}

proof fn lemma_hex4_at_sub(b: Seq<u8>, p: int, end: int, i: int)
    requires
        0 <= p <= end <= b.len(),
        hex4_at(b.subrange(p, end), i),
    ensures
        hex4_at(b, p + i),
        hex4_value(b, p + i) == hex4_value(b.subrange(p, end), i),
{
    let r = b.subrange(p, end);
    assert(r[i] == b[p + i]);
    assert(r[i + 1] == b[p + i + 1]);
    assert(r[i + 2] == b[p + i + 2]);
    assert(r[i + 3] == b[p + i + 3]);
}

#[verifier::spinoff_prover]
#[verifier::rlimit(60)]
proof fn lemma_string_rest_reads_back(b: Seq<u8>, st: ParseState, start: int, buf: Seq<char>, end: int)
    requires
        0 <= start < st.pos <= end < b.len(),
        b[end] == QUOTE,
        well_escaped(b.subrange(st.pos, end)),
    ensures
        string_rest(b, st, start, buf) matches Some((sv, st2)) && sv.raw == b.subrange(start + 1, end) && st2
            == at_pos(st, end + 1),
    decreases end - st.pos,
{
    let p = st.pos;
    let r = b.subrange(p, end);
    if p < end {
        assert(r[0] == b[p]);
        if b[p] != BACKSLASH {
            assert(QUOTE & 0xC0 != 0x80) by (bit_vector);
            lemma_scan_continuation_frame(b, p, end, 1);
            let n = scan_continuation(r, 1);
            assert(b.subrange(p + n, end) =~= r.subrange(n, r.len() as int));
            lemma_string_rest_reads_back(b, at_pos(st, p + n), start, buf + decode_utf8(b.subrange(p, p + n)), end);
        } else {
            let e = b[p + 1];
            assert(r[1] == e);
            if simple_escape(e) is Some {
                assert(b.subrange(p + 2, end) =~= r.subrange(2, r.len() as int));
                lemma_string_rest_reads_back(b, at_pos(st, p + 2), start, buf.push(simple_escape(e)->0), end);
            } else {
                assert(e == LOWER_U && hex4_at(r, 2));
                lemma_hex4_at_sub(b, p, end, 2);
                let st1 = at_pos(st, p + 2);
                lemma_hex4_read(b, st1);
                let cp = hex4_value(r, 2);
                let st3 = at_pos(st, p + 6);
                if 0xD800 <= cp <= 0xDBFF {
                    assert(r[6] == b[p + 6] && r[7] == b[p + 7]);
                    lemma_hex4_at_sub(b, p, end, 8);
                    lemma_hex4_read(b, at_pos(st3, p + 8));
                    let low = hex4_value(r, 8);
                    let combined = 0x10000 + (cp - 0xD800) * 1024 + (low - 0xDC00);
                    assert(0x10000 <= combined <= 0x10FFFF);
                    let (buf4, st4) = escape_unicode(b, Some(cp), st3, buf);
                    assert(st4 == at_pos(st, p + 12));
                    assert(b.subrange(p + 12, end) =~= r.subrange(12, r.len() as int));
                    lemma_string_rest_reads_back(b, st4, start, buf4, end);
                } else {
                    let (buf4, st4) = escape_unicode(b, Some(cp), st3, buf);
                    assert(st4 == st3);
                    assert(b.subrange(p + 6, end) =~= r.subrange(6, r.len() as int));
                    lemma_string_rest_reads_back(b, st4, start, buf4, end);
                }
            }
        }
    }
}

/// Bytes that are not continuation bytes and stand at the start of a piece
/// of well-escaped text up to its first backslash hold no quote.
proof fn lemma_plain_run(b: Seq<u8>, i: int, end: int)
    requires
        0 <= i <= end < b.len(),
        b[end] == QUOTE,
        well_escaped(b.subrange(i, end)),
    ensures
        i <= scan_plain(b, i) <= end,
        well_escaped(b.subrange(scan_plain(b, i), end)),
        scan_plain(b, i) < end ==> b[scan_plain(b, i)] == BACKSLASH,
    decreases end - i,
{
    let r = b.subrange(i, end);
    if i < end && b[i] != BACKSLASH {
        assert(r[0] == b[i]);
        assert(QUOTE & 0xC0 != 0x80) by (bit_vector);
        lemma_scan_continuation_frame(b, i, end, 1);
        let n = scan_continuation(r, 1);
        lemma_scan_continuation(b, i + 1);
        lemma_plain_piece(b, i, i + n);
        assert(b.subrange(i + n, end) =~= r.subrange(n, r.len() as int));
        lemma_plain_run(b, i + n, end);
    }
}

/// A character's bytes (a non-quote, non-backslash byte then continuation
/// bytes) are passed over by the scan for a quote or backslash.
proof fn lemma_plain_piece(b: Seq<u8>, i: int, j: int)
    requires
        0 <= i < j <= b.len(),
        b[i] != QUOTE,
        b[i] != BACKSLASH,
        scan_continuation(b, i + 1) == j,
    ensures
        scan_plain(b, i) == scan_plain(b, j),
    decreases j - i,
{
    if i + 1 < j {
        let x = b[i + 1];
        assert(x & 0xC0 == 0x80);
        assert(x & 0xC0 == 0x80 ==> x != 0x22 && x != 0x5c) by (bit_vector);
        lemma_plain_piece(b, i + 1, j);
    }
}

/// The text between two quotes that is well escaped (see [`well_escaped`])
/// reads back as it stands: the string ends at the second quote, its raw
/// text is what stands between the quotes, its value is that text with its
/// escapes resolved, and nothing is reported.
pub proof fn law_string_reads_back(b: Seq<u8>, st: ParseState, end: int)
    requires
        valid_utf8(b),
        0 <= st.pos < end < b.len(),
        b[st.pos] == QUOTE,
        b[end] == QUOTE,
        well_escaped(b.subrange(st.pos + 1, end)),
    ensures
        string(b, st) matches Some((sv, st2)) && {
            &&& sv.raw == b.subrange(st.pos + 1, end)
            &&& sv.value == unescaped(sv.raw)
            &&& sv.span == span_of(st.pos, end + 1)
            &&& st2 == at_pos(st, end + 1)
        },
{
    let cs = st.pos + 1;
    lemma_plain_run(b, cs, end);
    let q = scan_plain(b, cs);
    if q < end {
        lemma_string_rest_reads_back(b, at_pos(st, q), st.pos, decode_utf8(b.subrange(cs, q)), end);
    }
    law_string_value(b, st);
    lemma_string(b, st);
    if q < end {
        lemma_string_rest_raw(b, at_pos(st, q), st.pos, decode_utf8(b.subrange(cs, q)));
    }
}

// ---------------------------------------------------------------------------
// Comments stand apart from strings
// ---------------------------------------------------------------------------

/// Whether the comment `c` and the span `sp` do not overlap.
pub open spec fn apart(c: CommentView, sp: Span) -> bool {
    c.span.end <= sp.start || sp.end <= c.span.start
}

/// Whether no comment of `cs` overlaps a string token of `v` (keys included).
pub open spec fn strings_apart(v: ValueView, cs: Seq<CommentView>) -> bool
    decreases v,
{
    match v {
        ValueView::Object(_, ps) => props_apart(ps, cs),
        ValueView::Array(_, es) => values_apart(es, cs),
        ValueView::String(sv) => forall|i: int| 0 <= i < cs.len() ==> apart(#[trigger] cs[i], sv.span),
        _ => true,
    }
}

pub open spec fn props_apart(ps: Seq<PropView>, cs: Seq<CommentView>) -> bool
    decreases ps,
{
    if ps.len() == 0 {
        true
    } else {
        &&& props_apart(ps.drop_last(), cs)
        &&& forall|i: int| 0 <= i < cs.len() ==> apart(#[trigger] cs[i], ps.last().key.span)
        &&& strings_apart(ps.last().value, cs)
    }
}

pub open spec fn values_apart(es: Seq<ValueView>, cs: Seq<CommentView>) -> bool
    decreases es,
{
    if es.len() == 0 {
        true
    } else {
        values_apart(es.drop_last(), cs) && strings_apart(es.last(), cs)
    }
}

/// Every comment recorded so far ends by the current position.
pub open spec fn comments_before(st: ParseState) -> bool {
    forall|i: int| 0 <= i < st.comments.len() ==> (#[trigger] st.comments[i]).span.end <= st.pos
}

proof fn lemma_before_grows(b: Seq<u8>, x: ParseState, y: ParseState)
    requires
        comments_before(x),
        grows(b, x, y),
        b.len() <= u32::MAX,
    ensures
        comments_before(y),
{
    assert forall|i: int| 0 <= i < y.comments.len() implies (#[trigger] y.comments[i]).span.end <= y.pos by {
        if i < x.comments.len() {
            assert(y.comments[i] == x.comments[i]);
        }
    }
}

/// A token read from `x` to `y` without recording a comment stands apart from
/// every comment recorded before or after it.
proof fn lemma_token_apart(b: Seq<u8>, x: ParseState, y: ParseState, fz: ParseState, sp: Span)
    requires
        comments_before(x),
        x.comments == y.comments,
        grows(b, y, fz),
        b.len() <= u32::MAX,
        sp.start == x.pos,
        sp.end == y.pos,
    ensures
        forall|i: int| 0 <= i < fz.comments.len() ==> apart(#[trigger] fz.comments[i], sp),
{
    assert forall|i: int| 0 <= i < fz.comments.len() implies apart(#[trigger] fz.comments[i], sp) by {
        if i < x.comments.len() {
            assert(fz.comments[i] == y.comments[i]);
        }
    }
}

proof fn lemma_value_apart(b: Seq<u8>, o: JsonParseOptions, st: ParseState, fz: ParseState)
    requires
        0 <= st.pos <= b.len(),
        b.len() <= u32::MAX,
        comments_before(st),
    ensures
        value(b, o, st) matches Some((v, st2)) ==> (grows(b, st2, fz) ==> strings_apart(v, fz.comments)),
    decreases b.len() - st.pos, 3int,
{
    lemma_skip_trivia(b, o, st);
    lemma_value(b, o, st);
    let st1 = skip_trivia(b, o, st);
    lemma_before_grows(b, st, st1);
    let p = st1.pos;
    if peek_at(b, p) == Some(QUOTE) {
        lemma_string(b, st1);
        law_string_token(b, st1);
        if let Some((sv, st2)) = string(b, st1) {
            if grows(b, st2, fz) {
                lemma_token_apart(b, st1, st2, fz, sv.span);
            }
        }
    } else if peek_at(b, p) == Some(LBRACE) {
        lemma_object_apart(b, o, st1, fz);
    } else if peek_at(b, p) == Some(LBRACKET) {
        lemma_array_apart(b, o, st1, fz);
    }
}

proof fn lemma_object_apart(b: Seq<u8>, o: JsonParseOptions, st: ParseState, fz: ParseState)
    requires
        0 <= st.pos < b.len(),
        b.len() <= u32::MAX,
        comments_before(st),
    ensures
        object(b, o, st) matches Some((v, st2)) ==> (grows(b, st2, fz) ==> strings_apart(v, fz.comments)),
    decreases b.len() - st.pos, 2int,
{
    let start = st.pos;
    let st0 = at_pos(st, start + 1);
    lemma_skip_trivia(b, o, st0);
    let st1 = skip_trivia(b, o, st0);
    lemma_before_grows(b, st0, st1);
    lemma_object(b, o, st);
    if let Some((v, fin)) = object(b, o, st) {
        if grows(b, fin, fz) && peek_at(b, st1.pos) != Some(RBRACE) {
            lemma_object_members(b, o, st1, Seq::empty());
            let (ps, st2) = object_members(b, o, st1, Seq::empty()).unwrap();
            lemma_skip_trivia(b, o, st2);
            let st3 = skip_trivia(b, o, st2);
            lemma_grows_trans(b, st2, st3, fin);
            lemma_grows_trans(b, st2, fin, fz);
            lemma_members_apart(b, o, st1, Seq::empty(), fz);
        }
    }
}

#[verifier::spinoff_prover]
#[verifier::rlimit(60)]
proof fn lemma_members_apart(b: Seq<u8>, o: JsonParseOptions, st: ParseState, acc: Seq<PropView>, fz: ParseState)
    requires
        0 <= st.pos <= b.len(),
        b.len() <= u32::MAX,
        comments_before(st),
        props_apart(acc, fz.comments),
    ensures
        object_members(b, o, st, acc) matches Some((ps, st2)) ==> (grows(b, st2, fz) ==> props_apart(ps, fz.comments)),
    decreases b.len() - st.pos, 4int,
{
    lemma_skip_trivia(b, o, st);
    let st1 = skip_trivia(b, o, st);
    lemma_before_grows(b, st, st1);
    let p = st1.pos;
    lemma_object_members(b, o, st, acc);
    if let Some((ps, fin)) = object_members(b, o, st, acc) {
        if grows(b, fin, fz) && peek_at(b, p) == Some(QUOTE) {
            lemma_string(b, st1);
            law_string_token(b, st1);
            let (key, st2) = string(b, st1).unwrap();
            lemma_skip_trivia(b, o, st2);
            let st3 = skip_trivia(b, o, st2);
            if peek_at(b, st3.pos) == Some(COLON) {
                let st3a = at_pos(st3, st3.pos + 1);
                lemma_skip_trivia(b, o, st3a);
                let st4 = skip_trivia(b, o, st3a);
                lemma_value(b, o, st4);
                let (v, st5) = value(b, o, st4).unwrap();
                lemma_skip_trivia(b, o, st5);
                let st6 = skip_trivia(b, o, st5);
                let acc2 = acc.push(PropView { span: span_of(p, st5.pos), key, value: v });
                assert(acc2.drop_last() =~= acc);
                if peek_at(b, st6.pos) == Some(COMMA) {
                    let st6a = at_pos(st6, st6.pos + 1);
                    lemma_after_comma(b, o, st6a, RBRACE);
                    let st7 = after_comma(b, o, st6a, RBRACE);
                    lemma_object_members(b, o, st7, acc2);
                    lemma_grows_trans(b, st6a, st7, fin);
                    lemma_grows_trans(b, st6, st6a, fin);
                }
                lemma_grows_trans(b, st6, fin, fz);
                lemma_grows_trans(b, st5, st6, fz);
                lemma_grows_trans(b, st4, st5, fz);
                lemma_grows_trans(b, st3a, st4, fz);
                lemma_grows_trans(b, st3, st3a, fz);
                lemma_grows_trans(b, st2, st3, fz);
                lemma_token_apart(b, st1, st2, fz, key.span);
                lemma_before_grows(b, st1, st4);
                lemma_value_apart(b, o, st4, fz);
                assert(props_apart(acc2, fz.comments));
                if peek_at(b, st6.pos) == Some(COMMA) {
                    let st6a = at_pos(st6, st6.pos + 1);
                    let st7 = after_comma(b, o, st6a, RBRACE);
                    lemma_before_grows(b, st1, st7);
                    lemma_members_apart(b, o, st7, acc2, fz);
                }
            }
        }
    }
}

proof fn lemma_array_apart(b: Seq<u8>, o: JsonParseOptions, st: ParseState, fz: ParseState)
    requires
        0 <= st.pos < b.len(),
        b.len() <= u32::MAX,
        comments_before(st),
    ensures
        array(b, o, st) matches Some((v, st2)) ==> (grows(b, st2, fz) ==> strings_apart(v, fz.comments)),
    decreases b.len() - st.pos, 2int,
{
    let start = st.pos;
    let st0 = at_pos(st, start + 1);
    lemma_skip_trivia(b, o, st0);
    let st1 = skip_trivia(b, o, st0);
    lemma_before_grows(b, st0, st1);
    lemma_array(b, o, st);
    if let Some((v, fin)) = array(b, o, st) {
        if grows(b, fin, fz) && peek_at(b, st1.pos) != Some(RBRACKET) {
            lemma_array_elements(b, o, st1, Seq::empty());
            let (es, st2) = array_elements(b, o, st1, Seq::empty()).unwrap();
            lemma_skip_trivia(b, o, st2);
            let st3 = skip_trivia(b, o, st2);
            lemma_grows_trans(b, st2, st3, fin);
            lemma_grows_trans(b, st2, fin, fz);
            lemma_elements_apart(b, o, st1, Seq::empty(), fz);
        }
    }
}

#[verifier::spinoff_prover]
#[verifier::rlimit(60)]
proof fn lemma_elements_apart(b: Seq<u8>, o: JsonParseOptions, st: ParseState, acc: Seq<ValueView>, fz: ParseState)
    requires
        0 <= st.pos <= b.len(),
        b.len() <= u32::MAX,
        comments_before(st),
        values_apart(acc, fz.comments),
    ensures
        array_elements(b, o, st, acc) matches Some((es, st2)) ==> (grows(b, st2, fz) ==> values_apart(es, fz.comments)),
    decreases b.len() - st.pos, 4int,
{
    lemma_skip_trivia(b, o, st);
    let st1 = skip_trivia(b, o, st);
    lemma_before_grows(b, st, st1);
    let p = st1.pos;
    lemma_array_elements(b, o, st, acc);
    if let Some((es, fin)) = array_elements(b, o, st, acc) {
        if grows(b, fin, fz) && peek_at(b, p) != Some(RBRACKET) {
            lemma_value(b, o, st1);
            let (v, st2) = value(b, o, st1).unwrap();
            lemma_skip_trivia(b, o, st2);
            let st3 = skip_trivia(b, o, st2);
            let acc2 = acc.push(v);
            assert(acc2.drop_last() =~= acc);
            if peek_at(b, st3.pos) == Some(COMMA) {
                let st3a = at_pos(st3, st3.pos + 1);
                lemma_after_comma(b, o, st3a, RBRACKET);
                let st4 = after_comma(b, o, st3a, RBRACKET);
                lemma_array_elements(b, o, st4, acc2);
                lemma_grows_trans(b, st3a, st4, fin);
                lemma_grows_trans(b, st3, st3a, fin);
            }
            lemma_grows_trans(b, st3, fin, fz);
            lemma_grows_trans(b, st2, st3, fz);
            lemma_value_apart(b, o, st1, fz);
            assert(values_apart(acc2, fz.comments));
            if peek_at(b, st3.pos) == Some(COMMA) {
                let st3a = at_pos(st3, st3.pos + 1);
                let st4 = after_comma(b, o, st3a, RBRACKET);
                lemma_before_grows(b, st1, st4);
                lemma_elements_apart(b, o, st4, acc2, fz);
            }
        }
    }
}

/// No comment overlaps a string token (key or value) of the parse result:
/// each lies wholly before or wholly after it (offsets that fit a span's 32
/// bits assumed).
pub proof fn law_comments_apart_from_strings(b: Seq<u8>, o: JsonParseOptions)
    requires
        b.len() <= u32::MAX,
        parse_outcome(b, o) is Some,
    ensures
        strings_apart(parse_outcome(b, o).unwrap().value, parse_outcome(b, o).unwrap().comments),
{
    let st0 = initial_state();
    lemma_skip_trivia(b, o, st0);
    let st1 = skip_trivia(b, o, st0);
    lemma_before_grows(b, st0, st1);
    lemma_value(b, o, st1);
    let (v, st2) = value(b, o, st1).unwrap();
    lemma_skip_trivia(b, o, st2);
    let st3 = skip_trivia(b, o, st2);
    let st4 = if st3.pos < b.len() {
        with_error(st3, "Unexpected content after JSON value"@, st3.pos, st3.pos + 1)
    } else {
        st3
    };
    lemma_step_error(b, o, st3, "Unexpected content after JSON value"@, st3.pos, st3.pos + 1);
    lemma_step_refl(b, o, st3);
    let fz = ParseState { pos: st3.pos, comments: st4.comments, errors: st4.errors };
    assert(grows(b, st3, fz));
    lemma_grows_trans(b, st2, st3, fz);
    lemma_value_apart(b, o, st1, fz);
}

// ---------------------------------------------------------------------------
// Any text, written as JSON writes it, reads back
// ---------------------------------------------------------------------------

/// Whether the bytes `w` write the character `c` as JSON allows inside a
/// string: as itself (its UTF-8 bytes) unless it is `"`, `\` or below
/// U+0020; as a one-letter escape (`\"`, `\\`, `\/`, `\b`, `\f`, `\n`, `\r`,
/// `\t`); as `\uXXXX` (hex digits of either case) up to U+FFFF; or above
/// U+FFFF as the two `\uXXXX` escapes of its surrogate pair.
pub open spec fn writes_char(w: Seq<u8>, c: char) -> bool {
    let v = c as int;
    ||| (w == encode_utf8(seq![c]) && c != '"' && c != '\\' && v >= 0x20)
    ||| (w.len() == 2 && w[0] == BACKSLASH && escape_letter(w[1]) == Some(c))
    ||| (v <= 0xFFFF && w.len() == 6 && w[0] == BACKSLASH && w[1] == LOWER_U && hex4_at(w, 2)
        && hex4_value(w, 2) == v)
    ||| (v > 0xFFFF && w.len() == 12 && w[0] == BACKSLASH && w[1] == LOWER_U && hex4_at(w, 2)
        && hex4_value(w, 2) == 0xD800 + (v - 0x10000) / 1024 && w[6] == BACKSLASH && w[7] == LOWER_U
        && hex4_at(w, 8) && hex4_value(w, 8) == 0xDC00 + (v - 0x10000) % 1024)
}

/// Whether `q` writes the text `s`, each character in turn as
/// [`writes_char`] allows.
pub open spec fn writes_text(q: Seq<u8>, s: Seq<char>) -> bool
    decreases s.len(),
{
    if s.len() == 0 {
        q.len() == 0
    } else {
        exists|k: int|
            0 < k <= q.len() && #[trigger] writes_char(q.subrange(0, k), s[0]) && writes_text(
                q.subrange(k, q.len() as int),
                s.drop_first(),
            )
    }
}

/// The UTF-8 bytes of a character: a first byte that is not a continuation
/// byte (the character itself below U+0080, at least 0xC0 above), then
/// continuation bytes only.
proof fn lemma_char_bytes(c: char)
    ensures
        ({
            let w = encode_utf8(seq![c]);
            &&& 1 <= w.len() <= 4
            &&& w[0] & 0xC0 != 0x80
            &&& (c as u32) < 0x80 ==> w[0] == (c as u32) as u8
            &&& (c as u32) >= 0x80 ==> w[0] >= 0xC0
            &&& scan_continuation(w, 1) == w.len()
            &&& decode_utf8(w) == seq![c]
        }),
{
    let v = c as u32;
    char_is_scalar(c);
    let w = encode_utf8(seq![c]);
    assert(seq![c].drop_first() =~= Seq::<char>::empty());
    assert(seq![c][0] == c);
    reveal_with_fuel(encode_utf8, 2);
    assert(w =~= encode_scalar(v));
    encode_utf8_decode_utf8(seq![c]);
    reveal_with_fuel(scan_continuation, 5);
    if has_width_1_encoding(v) {
        assert((v & 0x7F) as u8 == v as u8 && (v as u8) & 0xC0 != 0x80) by (bit_vector)
            requires
                v <= 0x7F,
        ;
    } else if has_width_2_encoding(v) {
        let b0 = leading_byte_width_2(v);
        let b1 = last_continuation_byte(v);
        assert(b0 >= 0xC0 && b0 & 0xC0 != 0x80 && b1 & 0xC0 == 0x80) by (bit_vector)
            requires
                b0 == 0xC0 | ((v >> 6) & 0x1F) as u8,
                b1 == 0x80 | (v & 0x3F) as u8,
        ;
    } else if has_width_3_encoding(v) {
        let b0 = leading_byte_width_3(v);
        let b1 = second_last_continuation_byte(v);
        let b2 = last_continuation_byte(v);
        assert(b0 >= 0xC0 && b0 & 0xC0 != 0x80 && b1 & 0xC0 == 0x80 && b2 & 0xC0 == 0x80) by (bit_vector)
            requires
                b0 == 0xE0 | ((v >> 12) & 0x0F) as u8,
                b1 == 0x80 | ((v >> 6) & 0x3F) as u8,
                b2 == 0x80 | (v & 0x3F) as u8,
        ;
    } else {
        let b0 = leading_byte_width_4(v);
        let b1 = third_last_continuation_byte(v);
        let b2 = second_last_continuation_byte(v);
        let b3 = last_continuation_byte(v);
        assert(b0 >= 0xC0 && b0 & 0xC0 != 0x80 && b1 & 0xC0 == 0x80 && b2 & 0xC0 == 0x80 && b3 & 0xC0
            == 0x80) by (bit_vector)
            requires
                b0 == 0xF0 | ((v >> 18) & 0x7) as u8,
                b1 == 0x80 | ((v >> 12) & 0x3F) as u8,
                b2 == 0x80 | ((v >> 6) & 0x3F) as u8,
                b3 == 0x80 | (v & 0x3F) as u8,
        ;
    }
}

#[verifier::spinoff_prover]
#[verifier::rlimit(60)]
proof fn lemma_writes_text(q: Seq<u8>, s: Seq<char>)
    requires
        writes_text(q, s),
    ensures
        well_escaped(q),
        unescaped(q) == s,
        q.len() > 0 ==> q[0] & 0xC0 != 0x80,
    decreases s.len(),
{
    if s.len() > 0 {
        let k = choose|k: int|
            0 < k <= q.len() && #[trigger] writes_char(q.subrange(0, k), s[0]) && writes_text(
                q.subrange(k, q.len() as int),
                s.drop_first(),
            );
        let c = s[0];
        let w = q.subrange(0, k);
        let rest = q.subrange(k, q.len() as int);
        lemma_writes_text(rest, s.drop_first());
        assert(q =~= w + rest);
        assert(seq![c] + s.drop_first() =~= s);
        assert(w[0] == q[0]);
        assert(BACKSLASH & 0xC0 != 0x80) by (bit_vector);
        char_is_scalar(c);
        let v = c as int;
        if w == encode_utf8(seq![c]) && c != '"' && c != '\\' && v >= 0x20 {
            lemma_char_bytes(c);
            assert(q[0] != QUOTE && q[0] != BACKSLASH) by {
                let u = c as u32;
                char_u32_cast(c, u);
                char_u32_cast('"', '"' as u32);
                char_u32_cast('\\', '\\' as u32);
                assert('"' as u32 == 0x22);
                assert('\\' as u32 == 0x5c);
                if u < 0x80 {
                    assert(u as u8 != 0x22u8 && u as u8 != 0x5cu8) by (bit_vector)
                        requires
                            u < 0x80,
                            u != 0x22,
                            u != 0x5c,
                    ;
                }
            }
            lemma_scan_continuation_concat(w, rest, 1);
            assert(q.subrange(0, k) == w);
            assert(q.subrange(k, q.len() as int) == rest);
        } else if w.len() == 2 && w[0] == BACKSLASH && escape_letter(w[1]) == Some(c) {
            assert(q[1] == w[1]);
            assert(q.subrange(2, q.len() as int) =~= rest);
        } else if v <= 0xFFFF && w.len() == 6 && w[0] == BACKSLASH && w[1] == LOWER_U && hex4_at(w, 2)
            && hex4_value(w, 2) == v {
            assert(q[1] == LOWER_U);
            assert(q[2] == w[2] && q[3] == w[3] && q[4] == w[4] && q[5] == w[5]);
            assert(q.subrange(6, q.len() as int) =~= rest);
            char_u32_cast(c, c as u32);
            assert((hex4_value(q, 2) as char) == c);
        } else {
            assert(q[1] == LOWER_U && q[6] == BACKSLASH && q[7] == LOWER_U);
            assert(q[2] == w[2] && q[3] == w[3] && q[4] == w[4] && q[5] == w[5]);
            assert(q[8] == w[8] && q[9] == w[9] && q[10] == w[10] && q[11] == w[11]);
            assert(q.subrange(12, q.len() as int) =~= rest);
            let hi = hex4_value(q, 2);
            let lo = hex4_value(q, 8);
            assert(0 <= (v - 0x10000) / 1024 <= 0x3FF && 0 <= (v - 0x10000) % 1024 < 1024
                && ((v - 0x10000) / 1024) * 1024 + (v - 0x10000) % 1024 == v - 0x10000) by (nonlinear_arith)
                requires
                    0x10000 <= v <= 0x10FFFF,
            ;
            assert(0x10000 + (hi - 0xD800) * 1024 + (lo - 0xDC00) == v);
            char_u32_cast(c, c as u32);
        }
    }
}

/// Any text, written between two quotes as JSON writes it (see
/// [`writes_text`]), reads back as that text: the string ends at the closing
/// quote, its raw text is what stands between the quotes, its value is the
/// text, and nothing is reported.
pub proof fn law_text_reads_back(b: Seq<u8>, st: ParseState, end: int, s: Seq<char>)
    requires
        valid_utf8(b),
        0 <= st.pos < end < b.len(),
        b[st.pos] == QUOTE,
        b[end] == QUOTE,
        writes_text(b.subrange(st.pos + 1, end), s),
    ensures
        string(b, st) matches Some((sv, st2)) && {
            &&& sv.value == s
            &&& sv.raw == b.subrange(st.pos + 1, end)
            &&& sv.span == span_of(st.pos, end + 1)
            &&& st2 == at_pos(st, end + 1)
        },
{
    lemma_writes_text(b.subrange(st.pos + 1, end), s);
    law_string_reads_back(b, st, end);
}

// ---------------------------------------------------------------------------
// Numbers as JSON writes them
// ---------------------------------------------------------------------------

/// Whether `c` is an ASCII digit `0`..`9`.
pub open spec fn ascii_digit(c: u8) -> bool {
    0x30 <= c <= 0x39
}

/// The first position at or after `i` that is not an ASCII digit.
pub open spec fn digits_end(b: Seq<u8>, i: int) -> int
    decreases b.len() - i,
{
    if 0 <= i < b.len() && ascii_digit(b[i]) {
        digits_end(b, i + 1)
    } else {
        i
    }
}

/// Whether `b[s..e]` is a JSON number (RFC 8259): an optional `-`; an
/// integer part, `0` or a nonzero digit and more digits; an optional fraction,
/// `.` and at least one digit; an optional exponent, `e` or `E`, an optional
/// `+` or `-`, and at least one digit.
pub open spec fn json_number(b: Seq<u8>, s: int, e: int) -> bool {
    let i0 = if 0 <= s < b.len() && b[s] == 0x2d {
        s + 1
    } else {
        s
    };
    let int_ok = 0 <= i0 < b.len() && ascii_digit(b[i0]);
    let i1 = if int_ok && b[i0] == 0x30 {
        i0 + 1
    } else {
        digits_end(b, i0 + 1)
    };
    let frac = i1 < b.len() && b[i1] == 0x2e;
    let frac_ok = !frac || (i1 + 1 < b.len() && ascii_digit(b[i1 + 1]));
    let i2 = if frac {
        digits_end(b, i1 + 1)
    } else {
        i1
    };
    let exp = i2 < b.len() && (b[i2] == 0x65 || b[i2] == 0x45);
    let j = if exp && i2 + 1 < b.len() && (b[i2 + 1] == 0x2b || b[i2 + 1] == 0x2d) {
        i2 + 2
    } else {
        i2 + 1
    };
    let exp_ok = !exp || (j < b.len() && ascii_digit(b[j]));
    let i3 = if exp {
        digits_end(b, j)
    } else {
        i2
    };
    &&& 0 <= s
    &&& int_ok
    &&& frac_ok
    &&& exp_ok
    &&& e == i3
}

/// Whether `c` could continue a number: a digit, `.`, `e`, `E`, `+` or `-`.
pub open spec fn number_char(c: u8) -> bool {
    ascii_digit(c) || c == 0x2e || c == 0x65 || c == 0x45 || c == 0x2b || c == 0x2d
}

proof fn lemma_digits_end(b: Seq<u8>, i: int)
    requires
        0 <= i,
    ensures
        digits_end(b, i) == scan_digits(b, i),
        i <= digits_end(b, i),
        digits_end(b, i) <= b.len() || digits_end(b, i) == i,
        digits_end(b, i) < b.len() ==> !ascii_digit(b[digits_end(b, i)]),
    decreases b.len() - i,
{
    if 0 <= i < b.len() && ascii_digit(b[i]) {
        lemma_digits_end(b, i + 1);
    }
}

/// A JSON number followed by a byte that cannot continue it (or by the end)
/// is read whole: the token's span and raw text are exactly the number, the
/// parser moves to its end, and nothing is reported.
pub proof fn law_number_read_whole(b: Seq<u8>, st: ParseState, e: int)
    requires
        json_number(b, st.pos, e),
        e == b.len() || (e < b.len() && !number_char(b[e])),
    ensures
        number(b, st) == (NumView { span: span_of(st.pos, e), raw: b.subrange(st.pos, e) }, at_pos(st, e)),
{
    let s = st.pos;
    let i0 = if 0 <= s < b.len() && b[s] == 0x2d {
        s + 1
    } else {
        s
    };
    lemma_digits_end(b, i0 + 1);
    lemma_digits_end(b, i0);
    let i1 = if b[i0] == 0x30 {
        i0 + 1
    } else {
        digits_end(b, i0 + 1)
    };
    lemma_digits_end(b, i1 + 1);
    let i2 = if i1 < b.len() && b[i1] == 0x2e {
        digits_end(b, i1 + 1)
    } else {
        i1
    };
    lemma_digits_end(b, i2 + 1);
    lemma_digits_end(b, i2 + 2);
    if b[i0] == 0x30 && i0 + 1 < b.len() && is_digit(b[i0 + 1]) {
        assert(e == i0 + 1);
        assert(false);
    }
}

// ---------------------------------------------------------------------------
// JSON text parses cleanly
// ---------------------------------------------------------------------------

/// The text `null`.
pub open spec fn text_null() -> Seq<u8> {
    seq![0x6eu8, 0x75u8, 0x6cu8, 0x6cu8]
}

/// Whether `b[x..y]` is JSON whitespace only (see [`json_ws`]).
pub open spec fn ws_run(b: Seq<u8>, x: int, y: int) -> bool {
    &&& 0 <= x <= y <= b.len()
    &&& forall|k: int| x <= k < y ==> json_ws(#[trigger] b[k])
}

/// Whether `b[i..j]` is a JSON string: quotes around well-escaped text (see
/// [`well_escaped`]).
pub open spec fn json_string(b: Seq<u8>, i: int, j: int) -> bool {
    &&& 0 <= i
    &&& i + 2 <= j <= b.len()
    &&& b[i] == QUOTE
    &&& b[j - 1] == QUOTE
    &&& well_escaped(b.subrange(i + 1, j - 1))
}

/// Whether a value may end at `j`: the end of the source, JSON whitespace, or
/// a `,`, `]` or `}`.
pub open spec fn value_may_end(b: Seq<u8>, j: int) -> bool {
    j == b.len() || (0 <= j < b.len() && (json_ws(b[j]) || b[j] == COMMA || b[j] == RBRACKET || b[j] == RBRACE))
}

/// How a JSON value is laid out in the source: a single token (literal,
/// number or string), or an object or array with where each member lies.
pub enum Syntax {
    Token,
    Object(Seq<MemberSyntax>),
    Array(Seq<ElementSyntax>),
}

/// Where an object member lies: its key at `a..kend`, its colon at `c`, its
/// value at `vs..k` (laid out as `value`), and the comma after it at `d`
/// (unless it is the last member).
pub struct MemberSyntax {
    pub a: int,
    pub kend: int,
    pub c: int,
    pub vs: int,
    pub k: int,
    pub d: int,
    pub value: Syntax,
}

/// Where an array element lies: at `a..k` (laid out as `value`), with the
/// comma after it at `d` (unless it is the last element).
pub struct ElementSyntax {
    pub a: int,
    pub k: int,
    pub d: int,
    pub value: Syntax,
}

/// Whether `b[i..j]` is a JSON value as RFC 8259 writes it, laid out as `t`,
/// with no whitespace around it and no comments: `true`, `false`, `null`, a
/// number (see [`json_number`]), a string (see [`json_string`]), or an object
/// or array whose members are separated by commas, with whitespace allowed
/// around every token inside.
pub open spec fn json_value(b: Seq<u8>, i: int, j: int, t: Syntax) -> bool
    decreases t,
{
    &&& 0 <= i < j <= b.len()
    &&& match t {
        Syntax::Token => {
            ||| b.subrange(i, j) == text_true()
            ||| b.subrange(i, j) == text_false()
            ||| b.subrange(i, j) == text_null()
            ||| json_number(b, i, j)
            ||| json_string(b, i, j)
        },
        Syntax::Object(ms) => {
            &&& i + 2 <= j
            &&& b[i] == LBRACE
            &&& b[j - 1] == RBRACE
            &&& if ms.len() == 0 {
                ws_run(b, i + 1, j - 1)
            } else {
                json_members(b, ms, i + 1, j - 1)
            }
        },
        Syntax::Array(es) => {
            &&& i + 2 <= j
            &&& b[i] == LBRACKET
            &&& b[j - 1] == RBRACKET
            &&& if es.len() == 0 {
                ws_run(b, i + 1, j - 1)
            } else {
                json_elements(b, es, i + 1, j - 1)
            }
        },
    }
}

/// Whether `b[x..y]` holds the object members `ms`, in order: each
/// `"key" : value`, separated by commas, with whitespace around every token.
pub open spec fn json_members(b: Seq<u8>, ms: Seq<MemberSyntax>, x: int, y: int) -> bool
    decreases ms,
{
    &&& ms.len() > 0
    &&& {
        let m = ms[0];
        &&& x <= m.a < m.kend <= m.c < m.vs <= m.k <= y
        &&& ws_run(b, x, m.a)
        &&& json_string(b, m.a, m.kend)
        &&& ws_run(b, m.kend, m.c)
        &&& b[m.c] == COLON
        &&& ws_run(b, m.c + 1, m.vs)
        &&& json_value(b, m.vs, m.k, m.value)
        &&& if ms.len() == 1 {
            ws_run(b, m.k, y)
        } else {
            &&& m.k <= m.d < y
            &&& ws_run(b, m.k, m.d)
            &&& b[m.d] == COMMA
            &&& json_members(b, ms.subrange(1, ms.len() as int), m.d + 1, y)
        }
    }
}

/// Whether `b[x..y]` holds the array elements `es`, in order, separated by
/// commas, with whitespace around every token.
pub open spec fn json_elements(b: Seq<u8>, es: Seq<ElementSyntax>, x: int, y: int) -> bool
    decreases es,
{
    &&& es.len() > 0
    &&& {
        let e = es[0];
        &&& x <= e.a < e.k <= y
        &&& ws_run(b, x, e.a)
        &&& json_value(b, e.a, e.k, e.value)
        &&& if es.len() == 1 {
            ws_run(b, e.k, y)
        } else {
            &&& e.k <= e.d < y
            &&& ws_run(b, e.k, e.d)
            &&& b[e.d] == COMMA
            &&& json_elements(b, es.subrange(1, es.len() as int), e.d + 1, y)
        }
    }
}

/// Whether `b` is a JSON text: a JSON value with only whitespace around it.
pub open spec fn json_text(b: Seq<u8>) -> bool {
    exists|i: int, j: int, t: Syntax| #[trigger] json_value(b, i, j, t) && ws_run(b, 0, i) && ws_run(b, j, b.len() as int)
}

proof fn lemma_members_first(b: Seq<u8>, ms: Seq<MemberSyntax>, x: int, y: int)
    requires
        json_members(b, ms, x, y),
    ensures
        ms.len() > 0,
        x <= ms[0].a <= y,
        ws_run(b, x, ms[0].a),
        b[ms[0].a] == QUOTE,
{
}

proof fn lemma_elements_first(b: Seq<u8>, es: Seq<ElementSyntax>, x: int, y: int)
    requires
        json_elements(b, es, x, y),
    ensures
        es.len() > 0,
        x <= es[0].a < es[0].k <= y,
        ws_run(b, x, es[0].a),
        json_value(b, es[0].a, es[0].k, es[0].value),
{
}

proof fn lemma_skip_ws_run(b: Seq<u8>, o: JsonParseOptions, st: ParseState, y: int)
    requires
        ws_run(b, st.pos, y),
        y == b.len() || (!json_ws(b[y]) && b[y] != SLASH),
    ensures
        skip_trivia(b, o, st) == at_pos(st, y),
{
    lemma_skip_ws_to(b, st.pos, y);
}

proof fn lemma_skip_ws_to(b: Seq<u8>, p: int, y: int)
    requires
        ws_run(b, p, y),
        y == b.len() || !json_ws(b[y]),
    ensures
        skip_ws(b, p) == y,
    decreases y - p,
{
    if p < y {
        assert(json_ws(b[p]));
        lemma_skip_ws_to(b, p + 1, y);
    }
}

/// The first byte of a JSON value.
proof fn lemma_value_start(b: Seq<u8>, i: int, j: int, t: Syntax)
    requires
        json_value(b, i, j, t),
    ensures
        b[i] == LOWER_T || b[i] == LOWER_F || b[i] == LOWER_N || b[i] == MINUS || is_digit(b[i]) || b[i] == QUOTE
            || b[i] == LBRACE || b[i] == LBRACKET,
{
    let s = b.subrange(i, j);
    assert(s[0] == b[i]);
}

#[verifier::spinoff_prover]
#[verifier::rlimit(80)]
proof fn lemma_value_complete(b: Seq<u8>, o: JsonParseOptions, st: ParseState, i: int, j: int, t: Syntax)
    requires
        valid_utf8(b),
        json_value(b, i, j, t),
        ws_run(b, st.pos, i),
        value_may_end(b, j),
    ensures
        value(b, o, st) matches Some((v, st2)) && st2 == at_pos(st, j),
    decreases t, 2int,
{
    lemma_value_start(b, i, j, t);
    lemma_skip_ws_run(b, o, st, i);
    let st1 = at_pos(st, i);
    let s = b.subrange(i, j);
    assert(s[0] == b[i]);
    assert(true_word() =~= text_true());
    assert(false_word() =~= text_false());
    assert(null_word() =~= text_null());
    match t {
        Syntax::Token => {
            if b[i] == QUOTE {
                assert(json_string(b, i, j));
                law_string_reads_back(b, st1, j - 1);
            } else if b[i] == LOWER_T || b[i] == LOWER_F || b[i] == LOWER_N {
                if s == text_true() {
                    assert(b.subrange(i, i + 4) =~= s);
                } else if s == text_false() {
                    assert(b.subrange(i, i + 5) =~= s);
                } else {
                    assert(s == text_null());
                    assert(b.subrange(i, i + 4) =~= s);
                }
            } else {
                assert(json_number(b, i, j));
                law_number_read_whole(b, st1, j);
            }
        },
        Syntax::Object(ms) => {
            lemma_object_complete(b, o, st1, j, t);
        },
        Syntax::Array(es) => {
            lemma_array_complete(b, o, st1, j, t);
        },
    }
}

proof fn lemma_object_complete(b: Seq<u8>, o: JsonParseOptions, st: ParseState, j: int, t: Syntax)
    requires
        valid_utf8(b),
        json_value(b, st.pos, j, t),
        t is Object,
    ensures
        object(b, o, st) matches Some((v, st2)) && st2 == at_pos(st, j),
    decreases t, 1int,
{
    let i = st.pos;
    let ms = t->Object_0;
    let st0 = at_pos(st, i + 1);
    let y = j - 1;
    if ms.len() == 0 {
        lemma_skip_ws_run(b, o, st0, y);
        lemma_skip_ws_run(b, o, at_pos(st, y), y);
    } else {
        let m = ms[0];
        lemma_skip_ws_run(b, o, st0, m.a);
        lemma_members_complete(b, o, at_pos(st, m.a), Seq::empty(), ms, i + 1, y);
        lemma_skip_ws_run(b, o, at_pos(st, y), y);
    }
}

#[verifier::spinoff_prover]
#[verifier::rlimit(80)]
proof fn lemma_members_complete(
    b: Seq<u8>,
    o: JsonParseOptions,
    st: ParseState,
    acc: Seq<PropView>,
    ms: Seq<MemberSyntax>,
    x: int,
    y: int,
)
    requires
        valid_utf8(b),
        json_members(b, ms, x, y),
        y < b.len(),
        b[y] == RBRACE,
        x <= st.pos,
        ws_run(b, x, st.pos),
    ensures
        object_members(b, o, st, acc) matches Some((ps, st2)) && st2 == at_pos(st, y),
    decreases ms,
{
    let m = ms[0];
    let (a, kend, c, vs, k) = (m.a, m.kend, m.c, m.vs, m.k);
    assert(st.pos <= a) by {
        if st.pos > a {
            assert(json_ws(b[a]));
        }
    }
    lemma_skip_ws_run(b, o, st, a);
    let st1 = at_pos(st, a);
    law_string_reads_back(b, st1, kend - 1);
    let st2 = at_pos(st, kend);
    lemma_skip_ws_run(b, o, st2, c);
    let st3a = at_pos(st, c + 1);
    lemma_value_start(b, vs, k, m.value);
    lemma_skip_ws_run(b, o, st3a, vs);
    let st4 = at_pos(st, vs);
    assert(decreases_to!(ms => ms[0]));
    if ms.len() == 1 {
        lemma_value_complete(b, o, st4, vs, k, m.value);
        lemma_skip_ws_run(b, o, at_pos(st, k), y);
    } else {
        let d = m.d;
        lemma_value_complete(b, o, st4, vs, k, m.value);
        lemma_skip_ws_run(b, o, at_pos(st, k), d);
        let st6a = at_pos(st, d + 1);
        let rest = ms.subrange(1, ms.len() as int);
        lemma_members_first(b, rest, d + 1, y);
        let m2 = rest[0];
        lemma_skip_ws_run(b, o, st6a, m2.a);
        let st7 = after_comma(b, o, st6a, RBRACE);
        assert(st7 == st6a || st7 == at_pos(st, m2.a));
        let acc2 = acc.push(
            PropView { span: span_of(a, k), key: string(b, st1).unwrap().0, value: value(b, o, st4).unwrap().0 },
        );
        lemma_members_complete(b, o, st7, acc2, rest, d + 1, y);
    }
}

proof fn lemma_array_complete(b: Seq<u8>, o: JsonParseOptions, st: ParseState, j: int, t: Syntax)
    requires
        valid_utf8(b),
        json_value(b, st.pos, j, t),
        t is Array,
    ensures
        array(b, o, st) matches Some((v, st2)) && st2 == at_pos(st, j),
    decreases t, 1int,
{
    let i = st.pos;
    let es = t->Array_0;
    let st0 = at_pos(st, i + 1);
    let y = j - 1;
    if es.len() == 0 {
        lemma_skip_ws_run(b, o, st0, y);
        lemma_skip_ws_run(b, o, at_pos(st, y), y);
    } else {
        let e = es[0];
        lemma_value_start(b, e.a, e.k, e.value);
        lemma_skip_ws_run(b, o, st0, e.a);
        lemma_elements_complete(b, o, at_pos(st, e.a), Seq::empty(), es, i + 1, y);
        lemma_skip_ws_run(b, o, at_pos(st, y), y);
    }
}

#[verifier::spinoff_prover]
#[verifier::rlimit(80)]
proof fn lemma_elements_complete(
    b: Seq<u8>,
    o: JsonParseOptions,
    st: ParseState,
    acc: Seq<ValueView>,
    es: Seq<ElementSyntax>,
    x: int,
    y: int,
)
    requires
        valid_utf8(b),
        json_elements(b, es, x, y),
        y < b.len(),
        b[y] == RBRACKET,
        x <= st.pos,
        ws_run(b, x, st.pos),
    ensures
        array_elements(b, o, st, acc) matches Some((vs, st2)) && st2 == at_pos(st, y),
    decreases es,
{
    let e = es[0];
    let (a, k) = (e.a, e.k);
    lemma_value_start(b, a, k, e.value);
    assert(st.pos <= a) by {
        if st.pos > a {
            assert(json_ws(b[a]));
        }
    }
    lemma_skip_ws_run(b, o, st, a);
    let st1 = at_pos(st, a);
    assert(decreases_to!(es => es[0]));
    if es.len() == 1 {
        lemma_value_complete(b, o, st1, a, k, e.value);
        lemma_skip_ws_run(b, o, at_pos(st, k), y);
    } else {
        let d = e.d;
        lemma_value_complete(b, o, st1, a, k, e.value);
        lemma_skip_ws_run(b, o, at_pos(st, k), d);
        let st3a = at_pos(st, d + 1);
        let rest = es.subrange(1, es.len() as int);
        lemma_elements_first(b, rest, d + 1, y);
        let e2 = rest[0];
        lemma_value_start(b, e2.a, e2.k, e2.value);
        lemma_skip_ws_run(b, o, st3a, e2.a);
        let st4 = after_comma(b, o, st3a, RBRACKET);
        assert(st4 == st3a || st4 == at_pos(st, e2.a));
        lemma_elements_complete(b, o, st4, acc.push(value(b, o, st1).unwrap().0), rest, d + 1, y);
    }
}

/// Every JSON text (RFC 8259, see [`json_text`]) parses, under any options,
/// with no error and no comment. In particular JSON whitespace (tab
/// included) is skipped, numbers are read whole, and a comma between two
/// members is never taken for a trailing one.
pub proof fn law_json_text_parses_cleanly(b: Seq<u8>, o: JsonParseOptions)
    requires
        valid_utf8(b),
        json_text(b),
    ensures
        parse_outcome(b, o) matches Some(out) && out.errors.len() == 0 && out.comments.len() == 0,
{
    let (i, j, t) = choose|i: int, j: int, t: Syntax|
        #[trigger] json_value(b, i, j, t) && ws_run(b, 0, i) && ws_run(b, j, b.len() as int);
    let st0 = initial_state();
    lemma_value_start(b, i, j, t);
    lemma_skip_ws_run(b, o, st0, i);
    let st1 = at_pos(st0, i);
    lemma_value_complete(b, o, st1, i, j, t);
    lemma_skip_ws_run(b, o, at_pos(st0, j), b.len() as int);
}

/// Values nest into JSON texts: whitespace around any JSON value makes a
/// JSON text, and a number, a literal or a string alone is a JSON value.
pub proof fn law_json_text_of_value(b: Seq<u8>, i: int, j: int, t: Syntax)
    requires
        json_value(b, i, j, t),
        ws_run(b, 0, i),
        ws_run(b, j, b.len() as int),
    ensures
        json_text(b),
{
}

} // verus!
