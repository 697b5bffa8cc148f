use std::borrow::Cow;

use oxc_diagnostics::OxcDiagnostic;
use vstd::prelude::*;
use vstd::string::StringSliceAdditionalSpecFns;
use vstd::string::StringExecFns;
use vstd::utf8::*;

use crate::ast::{
    comments_view, prop_view, props_view, value_view, values_view, JsonArray, JsonBool,
    JsonComment, JsonCommentKind, JsonNumber, JsonObject, JsonProperty, JsonString, JsonValue,
    PropView, Span,
};
use crate::diagnostics::{diagnostics, make_error};
use crate::semantics::{
    advance, array, array_elements, at_pos, block_comment, escape_unicode, false_word, hex4,
    hex4_from, initial_state, is_digit, is_hex, line_comment, literal, msg_with_char, null_word,
    number, object, object_members, parse_outcome, peek_at, scan_alpha, scan_block,
    scan_continuation, scan_digits, scan_line, scan_plain, skip_trivia, skip_ws, span_of,
    starts_with2, string, string_rest, true_word, value, with_error, word_at, word_end, BACKSLASH,
    COLON, COMMA, CR, DIGIT_NINE, DIGIT_ZERO, DOT, ErrorView, LBRACE, LBRACKET, LF, LOWER_A,
    LOWER_B, LOWER_E, LOWER_F, LOWER_N, LOWER_R, LOWER_T, LOWER_U, LOWER_Z, MINUS, PLUS,
    ParseOutcome, ParseState, QUOTE, RBRACE, RBRACKET, SLASH, SPACE, STAR, TAB, UPPER_A, UPPER_E,
    UPPER_F, UPPER_Z,
};
use crate::text::{
    char_from_u32, lemma_boundary, lemma_boundary_after_ascii, lemma_continuation_mask, push_char,
    slice_str,
};

verus! {

broadcast use vstd::utf8::group_utf8_lib;

/// Options for the JSON parser.
#[derive(Debug, Clone, Copy)]
pub struct JsonParseOptions {
    /// Allow `//` and `/* */` comments.
    pub allow_comments: bool,
    /// Allow trailing commas in objects and arrays.
    pub allow_trailing_commas: bool,
}

impl JsonParseOptions {
    /// Strict JSON mode — no comments, no trailing commas.
    pub fn strict() -> (r: Self)
        ensures
            !r.allow_comments,
            !r.allow_trailing_commas,
    {
        Self { allow_comments: false, allow_trailing_commas: false }
    }
}

impl Default for JsonParseOptions {
    /// Default: JSONC mode (permissive).
    fn default() -> (r: Self)
        ensures
            r.allow_comments,
            r.allow_trailing_commas,
    {
        Self { allow_comments: true, allow_trailing_commas: true }
    }
}

/// Result of parsing JSON source text.
pub struct JsonParseReturn<'a> {
    pub value: JsonValue<'a>,
    pub comments: Vec<JsonComment<'a>>,
    pub errors: Vec<OxcDiagnostic>,
}

impl<'a> JsonParseReturn<'a> {
    /// Whether this result is the one that `out` describes.
    pub open spec fn describes(&self, out: ParseOutcome) -> bool {
        &&& value_view(self.value) == out.value
        &&& comments_view(self.comments@) == out.comments
        &&& self.errors@ == diagnostics(out.errors)
    }
}

pub struct JsonParser<'a> {
    source: &'a str,
    bytes: &'a [u8],
    pos: usize,
    options: JsonParseOptions,
    comments: Vec<JsonComment<'a>>,
    errors: Vec<OxcDiagnostic>,
    error_log: Ghost<Seq<ErrorView>>,
}

impl<'a> JsonParser<'a> {
    /// The bytes of the source text.
    pub closed spec fn input(&self) -> Seq<u8> {
        self.bytes@
    }

    /// The options the parser was made with.
    pub closed spec fn opts(&self) -> JsonParseOptions {
        self.options
    }

    /// Where the parser stands, and what it has recorded so far.
    pub closed spec fn state(&self) -> ParseState {
        ParseState {
            pos: self.pos as int,
            comments: comments_view(self.comments@),
            errors: self.error_log@,
        }
    }

    pub closed spec fn wf(&self) -> bool {
        &&& self.bytes@ == self.source.spec_bytes()
        &&& valid_utf8(self.bytes@)
        &&& self.pos <= self.bytes@.len()
        &&& self.bytes@.len() < u32::MAX
        &&& self.errors@ == diagnostics(self.error_log@)
    }

    /// Whether the parser has not read anything yet.
    pub closed spec fn is_fresh(&self) -> bool {
        self.state() == initial_state()
    }

    /// Same source and options as `other`.
    closed spec fn same_input(&self, other: &Self) -> bool {
        &&& self.source == other.source
        &&& self.bytes == other.bytes
        &&& self.options == other.options
    }

    pub fn new(source: &'a str, options: JsonParseOptions) -> (r: Self)
        requires
            source.spec_bytes().len() < u32::MAX,
        ensures
            r.wf(),
            r.is_fresh(),
            r.input() == source.spec_bytes(),
            r.opts() == options,
    {
        let bytes = source.as_bytes();
        let r = Self {
            source,
            bytes,
            pos: 0,
            options,
            comments: Vec::new(),
            errors: Vec::new(),
            error_log: Ghost(Seq::empty()),
        };
        proof {
            encode_utf8_valid_utf8(source@);
            assert(comments_view(r.comments@) =~= Seq::empty());
            assert(diagnostics(r.error_log@) =~= r.errors@);
        }
        r
    }

    // --- Helpers ---

    fn error(&mut self, message: String, start: u32, end: u32, Ghost(s): Ghost<int>, Ghost(e): Ghost<int>)
        requires
            old(self).wf(),
            0 <= s <= e <= u32::MAX,
            start == s as u32,
            end == e as u32,
        ensures
            final(self).wf(),
            final(self).same_input(old(self)),
            final(self).state() == with_error(old(self).state(), message@, s, e),
    {
        let d = make_error(message, start, end);
        self.errors.push(d);
        let ghost ev = ErrorView { message: message@, start: s, end: e };
        self.error_log = Ghost(self.error_log@.push(ev));
        assert(diagnostics(self.error_log@) =~= self.errors@);
    }

    fn peek(&self) -> (r: Option<u8>)
        requires
            self.wf(),
        ensures
            r == peek_at(self.input(), self.pos as int),
    {
        if self.pos < self.bytes.len() {
            Some(self.bytes[self.pos])
        } else {
            None
        }
    }

    fn advance(&mut self)
        requires
            old(self).wf(),
        ensures
            final(self).wf(),
            final(self).same_input(old(self)),
            final(self).state() == advance(old(self).input(), old(self).state()),
    {
        if self.pos < self.bytes.len() {
            self.pos += 1;
        }
    }

    fn eat(&mut self, expected: u8) -> (r: bool)
        requires
            old(self).wf(),
        ensures
            final(self).wf(),
            final(self).same_input(old(self)),
            r == (peek_at(old(self).input(), old(self).pos as int) == Some(expected)),
            final(self).state() == if r {
                at_pos(old(self).state(), old(self).pos + 1)
            } else {
                old(self).state()
            },
    {
        if self.peek() == Some(expected) {
            self.advance();
            true
        } else {
            false
        }
    }

    fn starts_with2(&self, c1: u8, c2: u8) -> (r: bool)
        requires
            self.wf(),
        ensures
            r == starts_with2(self.input(), self.pos as int, c1, c2),
    {
        self.pos < self.bytes.len() && self.bytes.len() - self.pos >= 2 && self.bytes[self.pos] == c1
            && self.bytes[self.pos + 1] == c2
    }

    fn skip_whitespace(&mut self)
        requires
            old(self).wf(),
        ensures
            final(self).wf(),
            final(self).same_input(old(self)),
            final(self).state() == at_pos(old(self).state(), skip_ws(old(self).input(), old(self).pos as int)),
            old(self).pos <= final(self).pos,
    {
        let ghost b = self.bytes@;
        let mut pos = self.pos;
        while pos < self.bytes.len() && (self.bytes[pos] == SPACE || self.bytes[pos] == TAB
            || self.bytes[pos] == LF || self.bytes[pos] == CR)
            invariant
                b == self.bytes@,
                old(self).pos <= pos <= b.len(),
                skip_ws(b, pos as int) == skip_ws(b, old(self).pos as int),
            decreases b.len() - pos,
        {
            pos += 1;
        }
        self.pos = pos;
    }

    fn parse_line_comment(&mut self)
        requires
            old(self).wf(),
            starts_with2(old(self).input(), old(self).pos as int, 0x2f, 0x2f),
        ensures
            final(self).wf(),
            final(self).same_input(old(self)),
            final(self).state() == line_comment(old(self).input(), old(self).state()),
            old(self).pos + 2 <= final(self).pos,
    {
        let ghost b = self.bytes@;
        let start = self.pos;
        self.pos += 2;
        let content_start = self.pos;
        let mut pos = self.pos;
        while pos < self.bytes.len() && self.bytes[pos] != LF
            invariant
                b == self.bytes@,
                content_start <= pos <= b.len(),
                scan_line(b, pos as int) == scan_line(b, content_start as int),
            decreases b.len() - pos,
        {
            pos += 1;
        }
        self.pos = pos;
        let content_end = self.pos;
        proof {
            lemma_boundary_after_ascii(b, start + 1);
            lemma_boundary(b, content_end as int);
        }
        let value = slice_str(self.source, content_start, content_end);
        let c = JsonComment { span: Span::new(start as u32, self.pos as u32), value, kind: JsonCommentKind::Line };
        self.comments.push(c);
        proof {
            let cv = c.view();
            assert(comments_view(self.comments@) =~= comments_view(old(self).comments@).push(cv));
        }
    }

    fn parse_block_comment(&mut self)
        requires
            old(self).wf(),
            starts_with2(old(self).input(), old(self).pos as int, 0x2f, 0x2a),
        ensures
            final(self).wf(),
            final(self).same_input(old(self)),
            final(self).state() == block_comment(old(self).input(), old(self).state()),
            old(self).pos + 2 <= final(self).pos,
    {
        let ghost b = self.bytes@;
        let start = self.pos;
        self.pos += 2;
        let content_start = self.pos;
        loop
            invariant
                b == self.bytes@,
                self.wf(),
                self.same_input(old(self)),
                self.comments == old(self).comments,
                self.error_log == old(self).error_log,
                self.errors == old(self).errors,
                start == old(self).pos,
                starts_with2(b, start as int, SLASH, STAR),
                content_start == start + 2,
                content_start <= self.pos <= b.len(),
                scan_block(b, self.pos as int) == scan_block(b, content_start as int),
            decreases b.len() - self.pos,
        {
            if self.pos >= self.bytes.len() - 1 {
                let m = String::from_str("Unterminated block comment");
                self.error(m, start as u32, self.pos as u32, Ghost(start as int), Ghost(self.pos as int));
                assert(self.state() == block_comment(b, old(self).state()));
                return ;
            }
            if self.bytes[self.pos] == STAR && self.bytes[self.pos + 1] == SLASH {
                let content_end = self.pos;
                self.pos += 2;
                proof {
                    lemma_boundary_after_ascii(b, start + 1);
                    lemma_boundary(b, content_end as int);
                }
                let value = slice_str(self.source, content_start, content_end);
                let c = JsonComment {
                    span: Span::new(start as u32, self.pos as u32),
                    value,
                    kind: JsonCommentKind::Block,
                };
                self.comments.push(c);
                proof {
                    let cv = c.view();
                    assert(comments_view(self.comments@) =~= comments_view(old(self).comments@).push(cv));
                }
                return ;
            }
            self.pos += 1;
        }
    }

    fn skip_whitespace_and_comments(&mut self)
        requires
            old(self).wf(),
        ensures
            final(self).wf(),
            final(self).same_input(old(self)),
            final(self).state() == skip_trivia(old(self).input(), old(self).opts(), old(self).state()),
            old(self).pos <= final(self).pos,
    {
        let ghost b = self.bytes@;
        let ghost o = self.options;
        loop
            invariant_except_break
                b == self.bytes@,
                o == self.options,
                self.wf(),
                self.same_input(old(self)),
                old(self).pos <= self.pos,
                skip_trivia(b, o, self.state()) == skip_trivia(b, o, old(self).state()),
            ensures
                self.wf(),
                self.same_input(old(self)),
                old(self).pos <= self.pos,
                self.state() == skip_trivia(b, o, old(self).state()),
            decreases b.len() - self.pos,
        {
            self.skip_whitespace();
            if self.options.allow_comments {
                if self.starts_with2(SLASH, SLASH) {
                    self.parse_line_comment();
                    continue ;
                }
                if self.starts_with2(SLASH, STAR) {
                    self.parse_block_comment();
                    continue ;
                }
            } else if self.starts_with2(SLASH, SLASH) || self.starts_with2(SLASH, STAR) {
                let start = self.pos;
                let m = String::from_str("Comments are not allowed in JSON");
                self.error(m, start as u32, (start + 2) as u32, Ghost(start as int), Ghost(start + 2));
                if self.starts_with2(SLASH, SLASH) {
                    self.parse_line_comment();
                } else {
                    self.parse_block_comment();
                }
                continue ;
            }
            break ;
        }
    }
}

impl<'a> JsonParser<'a> {
    fn expect(&mut self, expected: u8)
        requires
            old(self).wf(),
            peek_at(old(self).input(), old(self).pos as int) == Some(expected),
        ensures
            final(self).wf(),
            final(self).same_input(old(self)),
            final(self).state() == at_pos(old(self).state(), old(self).pos + 1),
    {
        if !self.eat(expected) {
            let mut m = String::from_str("Expected '");
            push_char(&mut m, expected as char);
            m.append("'");
            let p = self.pos;
            self.error(m, p as u32, (p + 1) as u32, Ghost(p as int), Ghost(p + 1));
        }
    }

    /// Parse exactly 4 hex digits, returning the u16 value.
    fn parse_hex4(&mut self) -> (r: Option<u16>)
        requires
            old(self).wf(),
        ensures
            final(self).wf(),
            final(self).same_input(old(self)),
            final(self).state() == hex4(old(self).input(), old(self).state()).1,
            match hex4(old(self).input(), old(self).state()).0 {
                Some(v) => r == Some(v as u16) && 0 <= v < 0x10000 && final(self).pos == old(self).pos + 4,
                None => r is None,
            },
            old(self).pos <= final(self).pos <= old(self).pos + 4,
            forall|k: int| old(self).pos <= k < final(self).pos ==> is_hex(#[trigger] old(self).input()[k]),
    {
        let ghost b = self.bytes@;
        let start = self.pos;
        let mut value: u16 = 0;
        let mut i: usize = 0;
        while i < 4
            invariant
                b == self.bytes@,
                self.wf(),
                self.same_input(old(self)),
                0 <= i <= 4,
                self.pos == start + i,
                start == old(self).pos,
                hex4_from(b, self.state(), start as int, i as int, value as int) == hex4(b, old(self).state()),
                i == 0 ==> value == 0,
                i <= 1 ==> value < 16,
                i <= 2 ==> value < 256,
                i <= 3 ==> value < 4096,
                forall|k: int| start <= k < self.pos ==> is_hex(#[trigger] b[k]),
            decreases 4 - i,
        {
            let c = self.peek();
            match c {
                Some(c) => {
                    if DIGIT_ZERO <= c && c <= DIGIT_NINE {
                        value = value * 16 + (c - DIGIT_ZERO) as u16;
                    } else if LOWER_A <= c && c <= LOWER_F {
                        value = value * 16 + (c - LOWER_A + 10) as u16;
                    } else if UPPER_A <= c && c <= UPPER_F {
                        value = value * 16 + (c - UPPER_A + 10) as u16;
                    } else {
                        let m = String::from_str("Expected 4 hex digits after \\u");
                        let p = self.pos;
                        self.error(m, start as u32, p as u32, Ghost(start as int), Ghost(p as int));
                        return None;
                    }
                    self.advance();
                },
                None => {
                    let m = String::from_str("Expected 4 hex digits after \\u");
                    let p = self.pos;
                    self.error(m, start as u32, p as u32, Ghost(start as int), Ghost(p as int));
                    return None;
                },
            }
            i += 1;
        }
        Some(value)
    }
}

impl<'a> JsonParser<'a> {
    #[verifier::rlimit(60)]
    fn parse_string(&mut self) -> (r: Option<JsonString<'a>>)
        requires
            old(self).wf(),
            peek_at(old(self).input(), old(self).pos as int) == Some(QUOTE),
        ensures
            final(self).wf(),
            final(self).same_input(old(self)),
            match string(old(self).input(), old(self).state()) {
                None => r is None,
                Some((sv, st)) => r matches Some(s) && s.view() == sv && final(self).state() == st,
            },
            old(self).pos < final(self).pos,
    {
        let ghost b = self.bytes@;
        let ghost st0 = self.state();
        let start = self.pos;
        self.expect(QUOTE);
        let content_start = self.pos;
        proof {
            lemma_boundary_after_ascii(b, start as int);
        }
        // Fast path: scan for end quote, checking if any escapes exist.
        let mut has_escapes = false;
        loop
            invariant_except_break
                b == self.bytes@,
                self.wf(),
                self.same_input(old(self)),
                self.state() == at_pos(st0, self.pos as int),
                st0 == old(self).state(),
                start == old(self).pos,
                content_start == start + 1,
                is_char_boundary(b, content_start as int),
                content_start <= self.pos <= b.len(),
                scan_plain(b, self.pos as int) == scan_plain(b, content_start as int),
                !has_escapes,
            ensures
                self.wf(),
                self.same_input(old(self)),
                self.state() == at_pos(st0, self.pos as int),
                is_char_boundary(b, content_start as int),
                self.pos == scan_plain(b, content_start as int),
                content_start <= self.pos < b.len(),
                has_escapes ==> b[self.pos as int] == BACKSLASH,
                !has_escapes ==> b[self.pos as int] == QUOTE,
            decreases b.len() - self.pos,
        {
            let c = self.peek();
            match c {
                Some(c) => {
                    if c == QUOTE {
                        break ;
                    } else if c == BACKSLASH {
                        has_escapes = true;
                        break ;
                    } else {
                        self.pos += 1;
                    }
                },
                None => {
                    let p = self.pos;
                    let m = String::from_str("Unterminated string");
                    self.error(m, start as u32, p as u32, Ghost(start as int), Ghost(p as int));
                    proof {
                        lemma_boundary(b, p as int);
                    }
                    let raw = slice_str(self.source, content_start, p);
                    let r = JsonString { span: Span::new(start as u32, p as u32), raw, value: Cow::Borrowed(raw) };
                    return Some(r);
                },
            }
        }
        if !has_escapes {
            // No escapes — borrow directly from source.
            let content_end = self.pos;
            self.advance();
            proof {
                lemma_boundary(b, content_end as int);
            }
            let raw = slice_str(self.source, content_start, content_end);
            return Some(
                JsonString {
                    span: Span::new(start as u32, self.pos as u32),
                    raw,
                    value: Cow::Borrowed(raw),
                },
            );
        }
        // Slow path: build unescaped string.
        proof {
            lemma_boundary(b, self.pos as int);
        }
        let mut buf = String::from_str(slice_str(self.source, content_start, self.pos));
        loop
            invariant
                b == self.bytes@,
                self.wf(),
                self.same_input(old(self)),
                start == old(self).pos,
                st0 == old(self).state(),
                b[start as int] == QUOTE,
                content_start == start + 1,
                is_char_boundary(b, content_start as int),
                content_start <= self.pos <= b.len(),
                is_char_boundary(b, self.pos as int),
                string_rest(b, self.state(), start as int, buf@) == string(b, st0),
            decreases b.len() - self.pos,
        {
            let ghost st = self.state();
            let ghost buf0 = buf@;
            let p = self.pos;
            let c = self.peek();
            if c == Some(QUOTE) {
                let raw = slice_str(self.source, content_start, p);
                self.advance();
                return Some(
                    JsonString {
                        span: Span::new(start as u32, self.pos as u32),
                        raw,
                        value: Cow::Owned(buf),
                    },
                );
            } else if c == Some(BACKSLASH) {
                self.advance();  // consume backslash
                let p1 = self.pos;
                match self.peek() {
                    Some(e) => {
                        if e == QUOTE {
                            push_char(&mut buf, '"');
                            self.advance();
                        } else if e == BACKSLASH {
                            push_char(&mut buf, '\\');
                            self.advance();
                        } else if e == SLASH {
                            push_char(&mut buf, '/');
                            self.advance();
                        } else if e == LOWER_B {
                            push_char(&mut buf, '\u{8}');
                            self.advance();
                        } else if e == LOWER_F {
                            push_char(&mut buf, '\u{c}');
                            self.advance();
                        } else if e == LOWER_N {
                            push_char(&mut buf, '\n');
                            self.advance();
                        } else if e == LOWER_R {
                            push_char(&mut buf, '\r');
                            self.advance();
                        } else if e == LOWER_T {
                            push_char(&mut buf, '\t');
                            self.advance();
                        } else if e == LOWER_U {
                            self.advance();  // consume 'u'
                            let cp = self.parse_hex4();
                            self.unicode_escape(&mut buf, cp);
                        } else {
                            if e >= 0x80 {
                                // The escaped character is not ASCII: the next step would
                                // slice the source inside that character.
                                return None;
                            }
                            let mut m = String::from_str("Invalid escape sequence '\\");
                            push_char(&mut m, e as char);
                            m.append("'");
                            assert(m@ =~= msg_with_char("Invalid escape sequence '\\"@, e as char, "'"@));
                            self.error(m, (p1 - 1) as u32, (p1 + 1) as u32, Ghost(p1 - 1), Ghost(p1 + 1));
                            push_char(&mut buf, e as char);
                            self.advance();
                        }
                        proof {
                            lemma_boundary_after_ascii(b, self.pos - 1);
                            assert(string_rest(b, self.state(), start as int, buf@) == string_rest(b, st, start as int, buf0));
                        }
                    },
                    None => {
                        let raw = slice_str(self.source, content_start, p1);
                        let m = String::from_str("Unterminated string");
                        self.error(m, start as u32, p1 as u32, Ghost(start as int), Ghost(p1 as int));
                        return Some(
                            JsonString {
                                span: Span::new(start as u32, p1 as u32),
                                raw,
                                value: Cow::Owned(buf),
                            },
                        );
                    },
                }
            } else if c.is_some() {
                // Accumulate regular characters. Handle multi-byte UTF-8 correctly
                // by slicing from the source rather than byte-at-a-time.
                let ch_start = self.pos;
                self.pos += 1;
                // Continue past continuation bytes.
                while self.pos < self.bytes.len() && self.bytes[self.pos] & 0xC0 == 0x80
                    invariant
                        b == self.bytes@,
                        self.wf(),
                        self.same_input(old(self)),
                        ch_start < self.pos <= b.len(),
                        self.state() == at_pos(st, self.pos as int),
                        scan_continuation(b, self.pos as int) == scan_continuation(b, ch_start + 1),
                    decreases b.len() - self.pos,
                {
                    self.pos += 1;
                }
                proof {
                    if self.pos < b.len() {
                        lemma_continuation_mask(b[self.pos as int]);
                    }
                    lemma_boundary(b, self.pos as int);
                }
                buf.append(slice_str(self.source, ch_start, self.pos));
                assert(string_rest(b, self.state(), start as int, buf@) == string_rest(b, st, start as int, buf0));
            } else {
                let raw = slice_str(self.source, content_start, p);
                let m = String::from_str("Unterminated string");
                self.error(m, start as u32, p as u32, Ghost(start as int), Ghost(p as int));
                return Some(
                    JsonString { span: Span::new(start as u32, p as u32), raw, value: Cow::Owned(buf) },
                );
            }
        }
    }

    /// What a `\uXXXX` escape whose digits gave `cp` adds to `buf`.
    fn unicode_escape(&mut self, buf: &mut String, cp: Option<u16>)
        requires
            old(self).wf(),
            cp is Some ==> old(self).pos >= 6,
            cp is Some ==> old(self).input()[old(self).pos - 1] < 0x80,
        ensures
            final(self).wf(),
            final(self).same_input(old(self)),
            ({
                let (buf2, st2) = escape_unicode(
                    old(self).input(),
                    match cp {
                        Some(v) => Some(v as int),
                        None => None,
                    },
                    old(self).state(),
                    old(buf)@,
                );
                final(buf)@ == buf2 && final(self).state() == st2
            }),
            old(self).pos <= final(self).pos,
            final(self).pos > old(self).pos ==> final(self).input()[final(self).pos - 1] < 0x80,
    {
        let ghost b = self.bytes@;
        match cp {
            Some(high) => {
                if 0xD800 <= high && high <= 0xDBFF {
                    // High surrogate — expect low surrogate.
                    let mut paired = false;
                    if self.eat(BACKSLASH) {
                        if self.eat(LOWER_U) {
                            paired = true;
                        }
                    }
                    if paired {
                        let low_cp = self.parse_hex4();
                        let mut combined_ok = false;
                        if let Some(low) = low_cp {
                            if 0xDC00 <= low && low <= 0xDFFF {
                                combined_ok = true;
                                let combined: u32 = 0x10000 + (high as u32 - 0xD800) * 1024 + (low as u32
                                    - 0xDC00);
                                match char_from_u32(combined) {
                                    Some(ch) => push_char(buf, ch),
                                    None => {
                                        let m = String::from_str("Invalid surrogate pair");
                                        let q = self.pos;
                                        self.error(m, (q - 12) as u32, q as u32, Ghost(q - 12), Ghost(q as int));
                                    },
                                }
                            }
                        }
                        if !combined_ok {
                            let m = String::from_str("Expected low surrogate (\\uDC00-\\uDFFF)");
                            let q = self.pos;
                            self.error(m, (q - 6) as u32, q as u32, Ghost(q - 6), Ghost(q as int));
                        }
                    } else {
                        let m = String::from_str("Unpaired high surrogate");
                        let q = self.pos;
                        self.error(m, (q - 6) as u32, q as u32, Ghost(q - 6), Ghost(q as int));
                    }
                } else if 0xDC00 <= high && high <= 0xDFFF {
                    let m = String::from_str("Unpaired low surrogate");
                    let q = self.pos;
                    self.error(m, (q - 4) as u32, q as u32, Ghost(q - 4), Ghost(q as int));
                } else {
                    match char_from_u32(high as u32) {
                        Some(ch) => push_char(buf, ch),
                        None => {
                            let m = String::from_str("Invalid unicode code point");
                            let q = self.pos;
                            self.error(m, (q - 4) as u32, q as u32, Ghost(q - 4), Ghost(q as int));
                        },
                    }
                }
            },
            None => {
                // Error already reported by parse_hex4
            },
        }
    }
}

impl<'a> JsonParser<'a> {
    fn consume_digits(&mut self)
        requires
            old(self).wf(),
        ensures
            final(self).wf(),
            final(self).same_input(old(self)),
            final(self).state() == at_pos(old(self).state(), scan_digits(old(self).input(), old(self).pos as int)),
            old(self).pos <= final(self).pos,
            forall|k: int| old(self).pos <= k < final(self).pos ==> is_digit(#[trigger] old(self).input()[k]),
            old(self).pos < old(self).input().len() && is_digit(old(self).input()[old(self).pos as int])
                ==> old(self).pos < final(self).pos,
    {
        let ghost b = self.bytes@;
        let mut pos = self.pos;
        while pos < self.bytes.len() && DIGIT_ZERO <= self.bytes[pos] && self.bytes[pos] <= DIGIT_NINE
            invariant
                b == self.bytes@,
                old(self).pos <= pos <= b.len(),
                scan_digits(b, pos as int) == scan_digits(b, old(self).pos as int),
                forall|k: int| old(self).pos <= k < pos ==> is_digit(#[trigger] b[k]),
            decreases b.len() - pos,
        {
            pos += 1;
        }
        self.pos = pos;
    }

    fn parse_number(&mut self) -> (r: JsonNumber<'a>)
        requires
            old(self).wf(),
            peek_at(old(self).input(), old(self).pos as int) matches Some(c) && (c == MINUS || is_digit(c)),
        ensures
            final(self).wf(),
            final(self).same_input(old(self)),
            (r.view(), final(self).state()) == number(old(self).input(), old(self).state()),
            old(self).pos < final(self).pos,
    {
        let ghost b = self.bytes@;
        let ghost st0 = self.state();
        let start = self.pos;
        // Optional negative sign
        if self.peek() == Some(MINUS) {
            self.advance();
        }
        assert(self.pos > start ==> b[self.pos - 1] < 0x80);
        // Integer part
        if self.peek() == Some(DIGIT_ZERO) {
            self.advance();
            // Leading zeros are not allowed in JSON (e.g., 007).
            match self.peek() {
                Some(c) => {
                    if DIGIT_ZERO <= c && c <= DIGIT_NINE {
                        let m = String::from_str("Leading zeros are not allowed");
                        let p = self.pos;
                        self.error(m, start as u32, (p + 1) as u32, Ghost(start as int), Ghost(p + 1));
                    }
                },
                None => {},
            }
        } else {
            self.consume_digits();
        }
        assert(self.pos > start);
        assert(b[self.pos - 1] < 0x80);
        // Fractional part
        if self.peek() == Some(DOT) {
            self.advance();
            assert(b[self.pos - 1] < 0x80);
            self.consume_digits();
        }
        assert(b[self.pos - 1] < 0x80);
        // Exponent part
        if self.peek() == Some(LOWER_E) || self.peek() == Some(UPPER_E) {
            self.advance();
            assert(b[self.pos - 1] < 0x80);
            if self.peek() == Some(PLUS) || self.peek() == Some(MINUS) {
                self.advance();
            }
            assert(b[self.pos - 1] < 0x80);
            self.consume_digits();
        }
        proof {
            assert(b[self.pos - 1] < 0x80);
            lemma_boundary(b, start as int);
            lemma_boundary_after_ascii(b, self.pos - 1);
        }
        let raw = slice_str(self.source, start, self.pos);
        JsonNumber { span: Span::new(start as u32, self.pos as u32), raw }
    }

    /// Consume `word` if it stands here; else skip the run of letters here.
    fn eat_str(&mut self, word: &[u8]) -> (r: bool)
        requires
            old(self).wf(),
        ensures
            final(self).wf(),
            final(self).same_input(old(self)),
            r == word_at(old(self).input(), old(self).pos as int, word@),
            old(self).pos <= final(self).pos,
            final(self).state() == at_pos(old(self).state(), word_end(old(self).input(), old(self).pos as int, word@)),
    {
        let ghost b = self.bytes@;
        let mut matches = self.bytes.len() - self.pos >= word.len();
        if matches {
            let mut i: usize = 0;
            while i < word.len()
                invariant
                    b == self.bytes@,
                    self.wf(),
                    self.pos + word@.len() <= b.len(),
                    0 <= i <= word@.len(),
                    matches == forall|k: int| 0 <= k < i ==> b[self.pos + k] == word@[k],
                decreases word@.len() - i,
            {
                if self.bytes[self.pos + i] != word[i] {
                    matches = false;
                }
                i += 1;
            }
            if matches {
                assert(b.subrange(self.pos as int, self.pos + word@.len()) =~= word@);
            } else {
                proof {
                    let k = choose|k: int| 0 <= k < word@.len() && b[self.pos + k] != word@[k];
                    assert(b.subrange(self.pos as int, self.pos + word@.len())[k] != word@[k]);
                }
            }
        }
        if matches {
            self.pos += word.len();
            true
        } else {
            // Advance past whatever partial match there is
            let mut pos = self.pos;
            while pos < self.bytes.len() && ((UPPER_A <= self.bytes[pos] && self.bytes[pos] <= UPPER_Z) || (
            LOWER_A <= self.bytes[pos] && self.bytes[pos] <= LOWER_Z))
                invariant
                    b == self.bytes@,
                    old(self).pos <= pos <= b.len(),
                    scan_alpha(b, pos as int) == scan_alpha(b, old(self).pos as int),
                decreases b.len() - pos,
            {
                pos += 1;
            }
            self.pos = pos;
            false
        }
    }

    fn parse_true(&mut self) -> (r: JsonValue<'a>)
        requires
            old(self).wf(),
        ensures
            final(self).wf(),
            final(self).same_input(old(self)),
            old(self).pos <= final(self).pos,
            (value_view(r), final(self).state()) == literal(
                old(self).input(),
                old(self).state(),
                true_word(),
                "Expected 'true'"@,
                Some(true),
            ),
    {
        let start = self.pos;
        let word: [u8; 4] = [LOWER_T, 0x72, LOWER_U, LOWER_E];
        assert(word@ =~= true_word());
        if self.eat_str(word.as_slice()) {
            JsonValue::Bool(JsonBool { span: Span::new(start as u32, self.pos as u32), value: true })
        } else {
            let m = String::from_str("Expected 'true'");
            let p = self.pos;
            self.error(m, start as u32, p as u32, Ghost(start as int), Ghost(p as int));
            JsonValue::Null(Span::new(start as u32, p as u32))
        }
    }

    fn parse_false(&mut self) -> (r: JsonValue<'a>)
        requires
            old(self).wf(),
        ensures
            final(self).wf(),
            final(self).same_input(old(self)),
            old(self).pos <= final(self).pos,
            (value_view(r), final(self).state()) == literal(
                old(self).input(),
                old(self).state(),
                false_word(),
                "Expected 'false'"@,
                Some(false),
            ),
    {
        let start = self.pos;
        let word: [u8; 5] = [LOWER_F, LOWER_A, 0x6c, 0x73, LOWER_E];
        assert(word@ =~= false_word());
        if self.eat_str(word.as_slice()) {
            JsonValue::Bool(JsonBool { span: Span::new(start as u32, self.pos as u32), value: false })
        } else {
            let m = String::from_str("Expected 'false'");
            let p = self.pos;
            self.error(m, start as u32, p as u32, Ghost(start as int), Ghost(p as int));
            JsonValue::Null(Span::new(start as u32, p as u32))
        }
    }

    fn parse_null(&mut self) -> (r: JsonValue<'a>)
        requires
            old(self).wf(),
        ensures
            final(self).wf(),
            final(self).same_input(old(self)),
            old(self).pos <= final(self).pos,
            (value_view(r), final(self).state()) == literal(
                old(self).input(),
                old(self).state(),
                null_word(),
                "Expected 'null'"@,
                None,
            ),
    {
        let start = self.pos;
        let word: [u8; 4] = [LOWER_N, LOWER_U, 0x6c, 0x6c];
        assert(word@ =~= null_word());
        if self.eat_str(word.as_slice()) {
            JsonValue::Null(Span::new(start as u32, self.pos as u32))
        } else {
            let m = String::from_str("Expected 'null'");
            let p = self.pos;
            self.error(m, start as u32, p as u32, Ghost(start as int), Ghost(p as int));
            JsonValue::Null(Span::new(start as u32, p as u32))
        }
    }
}

impl<'a> JsonParser<'a> {
    #[verifier::rlimit(100)]
    #[verifier::spinoff_prover]
    fn parse_value(&mut self) -> (r: Option<JsonValue<'a>>)
        requires
            old(self).wf(),
        ensures
            final(self).wf(),
            final(self).same_input(old(self)),
            match value(old(self).input(), old(self).opts(), old(self).state()) {
                None => r is None,
                Some((v, st)) => r matches Some(x) && value_view(x) == v && final(self).state() == st,
            },
            old(self).pos <= final(self).pos,
        decreases old(self).input().len() - old(self).pos, 3int,
    {
        self.skip_whitespace_and_comments();
        match self.peek() {
            Some(c) => {
                if c == QUOTE {
                    match self.parse_string() {
                        Some(s) => Some(JsonValue::String(s)),
                        None => None,
                    }
                } else if c == LBRACE {
                    match self.parse_object() {
                        Some(o) => Some(JsonValue::Object(o)),
                        None => None,
                    }
                } else if c == LBRACKET {
                    match self.parse_array() {
                        Some(a) => Some(JsonValue::Array(a)),
                        None => None,
                    }
                } else if c == LOWER_T {
                    Some(self.parse_true())
                } else if c == LOWER_F {
                    Some(self.parse_false())
                } else if c == LOWER_N {
                    Some(self.parse_null())
                } else if c == MINUS || (DIGIT_ZERO <= c && c <= DIGIT_NINE) {
                    Some(JsonValue::Number(self.parse_number()))
                } else {
                    let start = self.pos;
                    self.advance();
                    let mut m = String::from_str("Unexpected character '");
                    push_char(&mut m, c as char);
                    m.append("'");
                    assert(m@ =~= msg_with_char("Unexpected character '"@, c as char, "'"@));
                    let p = self.pos;
                    self.error(m, start as u32, p as u32, Ghost(start as int), Ghost(p as int));
                    Some(JsonValue::Null(Span::new(start as u32, p as u32)))
                }
            },
            None => {
                let p = self.pos;
                let m = String::from_str("Unexpected end of input");
                self.error(m, p as u32, p as u32, Ghost(p as int), Ghost(p as int));
                Some(JsonValue::Null(Span::new(p as u32, p as u32)))
            },
        }
    }

    #[verifier::rlimit(100)]
    #[verifier::spinoff_prover]
    fn parse_object(&mut self) -> (r: Option<JsonObject<'a>>)
        requires
            old(self).wf(),
            peek_at(old(self).input(), old(self).pos as int) == Some(LBRACE),
        ensures
            final(self).wf(),
            final(self).same_input(old(self)),
            match object(old(self).input(), old(self).opts(), old(self).state()) {
                None => r is None,
                Some((v, st)) => r matches Some(x) && value_view(JsonValue::Object(x)) == v
                    && final(self).state() == st,
            },
            old(self).pos <= final(self).pos,
        decreases old(self).input().len() - old(self).pos, 2int,
    {
        let ghost b = self.bytes@;
        let ghost o = self.options;
        let start = self.pos;
        self.expect(LBRACE);
        self.skip_whitespace_and_comments();
        let ghost st1 = self.state();
        let mut properties: Vec<JsonProperty<'a>> = Vec::new();
        if self.peek() != Some(RBRACE) {
            loop
                invariant_except_break
                    b == self.bytes@,
                    o == self.options,
                    self.wf(),
                    self.same_input(old(self)),
                    start == old(self).pos,
                    start < self.pos <= b.len(),
                    st1 == skip_trivia(b, o, at_pos(old(self).state(), start + 1)),
                    start < st1.pos <= b.len(),
                    peek_at(b, st1.pos) != Some(RBRACE),
                    object_members(b, o, self.state(), props_view(properties@)) == object_members(b, o, st1, Seq::empty()),
                ensures
                    self.wf(),
                    self.same_input(old(self)),
                    start < self.pos <= b.len(),
                    object_members(b, o, st1, Seq::empty()) == Some((props_view(properties@), self.state())),
                decreases b.len() - self.pos,
            {
                match self.parse_member(&mut properties) {
                    ListStep::Next => {},
                    ListStep::Done => break ,
                    ListStep::Fault => return None,
                }
            }
        }
        self.skip_whitespace_and_comments();
        if !self.eat(RBRACE) {
            let p = self.pos;
            let m = String::from_str("Expected '}'");
            self.error(m, p as u32, (p + 1) as u32, Ghost(p as int), Ghost(p + 1));
        }
        Some(JsonObject { span: Span::new(start as u32, self.pos as u32), properties })
    }

    /// One turn of the object loop: a property, then a comma or the end.
    #[verifier::rlimit(100)]
    #[verifier::spinoff_prover]
    fn parse_member(&mut self, properties: &mut Vec<JsonProperty<'a>>) -> (r: ListStep)
        requires
            old(self).wf(),
        ensures
            final(self).wf(),
            final(self).same_input(old(self)),
            old(self).pos <= final(self).pos,
            ({
                let m = object_members(old(self).input(), old(self).opts(), old(self).state(), props_view(old(properties)@));
                match r {
                    ListStep::Fault => m is None,
                    ListStep::Done => m == Some((props_view(final(properties)@), final(self).state())),
                    ListStep::Next => old(self).pos < final(self).pos && m == object_members(
                        old(self).input(),
                        old(self).opts(),
                        final(self).state(),
                        props_view(final(properties)@),
                    ),
                }
            }),
        decreases old(self).input().len() - old(self).pos, 4int,
    {
        self.skip_whitespace_and_comments();
        if self.peek() == Some(RBRACE) {
            // Trailing comma case
            return ListStep::Done;
        }
        let prop_start = self.pos;
        if self.peek() != Some(QUOTE) {
            let m = String::from_str("Expected property name");
            self.error(m, prop_start as u32, (prop_start + 1) as u32, Ghost(prop_start as int), Ghost(prop_start + 1));
            return ListStep::Done;
        }
        let key = match self.parse_string() {
            Some(k) => k,
            None => return ListStep::Fault,
        };
        self.skip_whitespace_and_comments();
        if !self.eat(COLON) {
            let p = self.pos;
            let m = String::from_str("Expected ':'");
            self.error(m, p as u32, (p + 1) as u32, Ghost(p as int), Ghost(p + 1));
            return ListStep::Done;
        }
        self.skip_whitespace_and_comments();
        let value = match self.parse_value() {
            Some(v) => v,
            None => return ListStep::Fault,
        };
        let prop_end = self.pos;
        let ghost before = properties@;
        let ghost kv = key.view();
        let ghost vv = value_view(value);
        let prop = JsonProperty { span: Span::new(prop_start as u32, prop_end as u32), key, value };
        assert(prop_view(prop) == PropView { span: span_of(prop_start as int, prop_end as int), key: kv, value: vv });
        properties.push(prop);
        assert(properties@.drop_last() =~= before);
        assert(props_view(properties@) == props_view(before).push(prop_view(prop)));
        self.skip_whitespace_and_comments();
        if self.peek() == Some(COMMA) {
            self.advance();
            if !self.options.allow_trailing_commas {
                self.skip_whitespace_and_comments();
                if self.peek() == Some(RBRACE) {
                    let p = self.pos;
                    let m = String::from_str("Trailing commas are not allowed in JSON");
                    self.error(m, (p - 1) as u32, p as u32, Ghost(p - 1), Ghost(p as int));
                }
            }
            ListStep::Next
        } else {
            ListStep::Done
        }
    }

    #[verifier::rlimit(100)]
    #[verifier::spinoff_prover]
    fn parse_array(&mut self) -> (r: Option<JsonArray<'a>>)
        requires
            old(self).wf(),
            peek_at(old(self).input(), old(self).pos as int) == Some(LBRACKET),
        ensures
            final(self).wf(),
            final(self).same_input(old(self)),
            match array(old(self).input(), old(self).opts(), old(self).state()) {
                None => r is None,
                Some((v, st)) => r matches Some(x) && value_view(JsonValue::Array(x)) == v
                    && final(self).state() == st,
            },
            old(self).pos <= final(self).pos,
        decreases old(self).input().len() - old(self).pos, 2int,
    {
        let ghost b = self.bytes@;
        let ghost o = self.options;
        let start = self.pos;
        self.expect(LBRACKET);
        self.skip_whitespace_and_comments();
        let ghost st1 = self.state();
        let mut elements: Vec<JsonValue<'a>> = Vec::new();
        if self.peek() != Some(RBRACKET) {
            loop
                invariant_except_break
                    b == self.bytes@,
                    o == self.options,
                    self.wf(),
                    self.same_input(old(self)),
                    start == old(self).pos,
                    start < self.pos <= b.len(),
                    st1 == skip_trivia(b, o, at_pos(old(self).state(), start + 1)),
                    start < st1.pos <= b.len(),
                    peek_at(b, st1.pos) != Some(RBRACKET),
                    array_elements(b, o, self.state(), values_view(elements@)) == array_elements(b, o, st1, Seq::empty()),
                ensures
                    self.wf(),
                    self.same_input(old(self)),
                    start < self.pos <= b.len(),
                    array_elements(b, o, st1, Seq::empty()) == Some((values_view(elements@), self.state())),
                decreases b.len() - self.pos,
            {
                match self.parse_element(&mut elements) {
                    ListStep::Next => {},
                    ListStep::Done => break ,
                    ListStep::Fault => return None,
                }
            }
        }
        self.skip_whitespace_and_comments();
        if !self.eat(RBRACKET) {
            let p = self.pos;
            let m = String::from_str("Expected ']'");
            self.error(m, p as u32, (p + 1) as u32, Ghost(p as int), Ghost(p + 1));
        }
        Some(JsonArray { span: Span::new(start as u32, self.pos as u32), elements })
    }

    /// One turn of the array loop: an element, then a comma or the end.
    #[verifier::rlimit(100)]
    #[verifier::spinoff_prover]
    fn parse_element(&mut self, elements: &mut Vec<JsonValue<'a>>) -> (r: ListStep)
        requires
            old(self).wf(),
        ensures
            final(self).wf(),
            final(self).same_input(old(self)),
            old(self).pos <= final(self).pos,
            ({
                let m = array_elements(old(self).input(), old(self).opts(), old(self).state(), values_view(old(elements)@));
                match r {
                    ListStep::Fault => m is None,
                    ListStep::Done => m == Some((values_view(final(elements)@), final(self).state())),
                    ListStep::Next => old(self).pos < final(self).pos && m == array_elements(
                        old(self).input(),
                        old(self).opts(),
                        final(self).state(),
                        values_view(final(elements)@),
                    ),
                }
            }),
        decreases old(self).input().len() - old(self).pos, 4int,
    {
        self.skip_whitespace_and_comments();
        if self.peek() == Some(RBRACKET) {
            // Trailing comma case
            return ListStep::Done;
        }
        let value = match self.parse_value() {
            Some(v) => v,
            None => return ListStep::Fault,
        };
        let ghost before = elements@;
        elements.push(value);
        assert(elements@.drop_last() =~= before);
        self.skip_whitespace_and_comments();
        if self.peek() == Some(COMMA) {
            self.advance();
            if !self.options.allow_trailing_commas {
                self.skip_whitespace_and_comments();
                if self.peek() == Some(RBRACKET) {
                    let p = self.pos;
                    let m = String::from_str("Trailing commas are not allowed in JSON");
                    self.error(m, (p - 1) as u32, p as u32, Ghost(p - 1), Ghost(p as int));
                }
            }
            ListStep::Next
        } else {
            ListStep::Done
        }
    }
}

/// How one turn of a list loop ended.
enum ListStep {
    /// A comma was read: the list goes on.
    Next,
    /// The list stops here.
    Done,
    /// The source cannot be read further (see `semantics`).
    Fault,
}

impl<'a> JsonParser<'a> {
    /// Parses the whole source; `None` where the source holds, inside a string
    /// that the parser reads, a backslash followed by a non-ASCII character.
    pub fn try_parse(self) -> (r: Option<JsonParseReturn<'a>>)
        requires
            self.wf(),
            self.is_fresh(),
        ensures
            match parse_outcome(self.input(), self.opts()) {
                None => r is None,
                Some(out) => r matches Some(x) && x.describes(out),
            },
    {
        let mut parser = self;
        parser.skip_whitespace_and_comments();
        let value = match parser.parse_value() {
            Some(v) => v,
            None => return None,
        };
        parser.skip_whitespace_and_comments();
        if parser.pos < parser.source.len() {
            let p = parser.pos;
            let m = String::from_str("Unexpected content after JSON value");
            parser.error(m, p as u32, (p + 1) as u32, Ghost(p as int), Ghost(p + 1));
        }
        Some(JsonParseReturn { value, comments: parser.comments, errors: parser.errors })
    }

    pub fn parse(self) -> (r: JsonParseReturn<'a>)
        requires
            self.wf(),
            self.is_fresh(),
            parse_outcome(self.input(), self.opts()) is Some,
        ensures
            r.describes(parse_outcome(self.input(), self.opts()).unwrap()),
    {
        match self.try_parse() {
            Some(r) => r,
            None => vstd::pervasive::unreached(),
        }
    }
}

} // verus!
