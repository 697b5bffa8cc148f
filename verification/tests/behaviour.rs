use std::borrow::Cow;

use oxc_json::{parse, parse_json, JsonCommentKind, JsonParseOptions, JsonParser, JsonValue};

fn messages(source: &str, strict: bool) -> Vec<String> {
    let result = if strict { parse_json(source) } else { parse(source) };
    result.errors.iter().map(|e| e.message.to_string()).collect()
}

#[test]
fn error_unexpected_content() {
    assert_eq!(messages("1 2", false), vec!["Unexpected content after JSON value"]);
}

#[test]
fn error_unexpected_character() {
    assert_eq!(messages("@", false), vec!["Unexpected character '@'"]);
    let result = parse("@");
    assert!(matches!(result.value, JsonValue::Null(s) if s.start == 0 && s.end == 1));
}

#[test]
fn error_unexpected_end() {
    assert_eq!(messages("", false), vec!["Unexpected end of input"]);
    let result = parse("  ");
    assert!(matches!(result.value, JsonValue::Null(s) if s.start == 2 && s.end == 2));
}

#[test]
fn error_expected_property_name() {
    assert_eq!(
        messages("{1}", false),
        vec!["Expected property name", "Expected '}'", "Unexpected content after JSON value"]
    );
}

#[test]
fn error_expected_colon() {
    assert_eq!(
        messages(r#"{"a" 1}"#, false),
        vec!["Expected ':'", "Expected '}'", "Unexpected content after JSON value"]
    );
}

#[test]
fn error_expected_closing_brace_and_bracket() {
    assert_eq!(messages(r#"{"a":1"#, false), vec!["Expected '}'"]);
    assert_eq!(messages("[1", false), vec!["Expected ']'"]);
    let result = parse("[1");
    let arr = result.value.as_array().unwrap();
    assert_eq!(arr.elements.len(), 1);
    assert_eq!((arr.span.start, arr.span.end), (0, 2));
}

#[test]
fn error_unterminated_string() {
    assert_eq!(messages(r#""abc"#, false), vec!["Unterminated string"]);
    let result = parse(r#""abc"#);
    if let JsonValue::String(s) = &result.value {
        assert_eq!(s.raw, "abc");
        assert!(matches!(s.value, Cow::Borrowed(_)));
        assert_eq!((s.span.start, s.span.end), (0, 4));
    } else {
        panic!("expected string");
    }
}

#[test]
fn error_surrogates() {
    assert_eq!(messages(r#""\uD800\u0041""#, false), vec![r"Expected low surrogate (\uDC00-\uDFFF)"]);
    assert_eq!(messages(r#""\uD800x""#, false), vec!["Unpaired high surrogate"]);
    assert_eq!(messages(r#""\uDC00""#, false), vec!["Unpaired low surrogate"]);
}

#[test]
fn error_escapes() {
    assert_eq!(messages(r#""\q""#, false), vec![r"Invalid escape sequence '\q'"]);
    assert_eq!(parse(r#""\q""#).value.as_str(), Some("q"));
    assert_eq!(messages(r#""\u00GG""#, false), vec![r"Expected 4 hex digits after \u"]);
    assert_eq!(parse(r#""\u00GG""#).value.as_str(), Some("GG"));
}

#[test]
fn error_leading_zeros() {
    assert_eq!(
        messages("007", false),
        vec!["Leading zeros are not allowed", "Unexpected content after JSON value"]
    );
    if let JsonValue::Number(n) = &parse("007").value {
        assert_eq!(n.raw, "0");
    } else {
        panic!("expected number");
    }
}

#[test]
fn error_literals() {
    assert_eq!(messages("tru", false), vec!["Expected 'true'"]);
    assert_eq!(messages("fals", false), vec!["Expected 'false'"]);
    assert_eq!(messages("nul", false), vec!["Expected 'null'"]);
    assert!(matches!(parse("nul").value, JsonValue::Null(s) if s.start == 0 && s.end == 3));
}

#[test]
fn error_strict_modes() {
    assert_eq!(messages("// c\n1", true), vec!["Comments are not allowed in JSON"]);
    assert_eq!(messages("[1,]", true), vec!["Trailing commas are not allowed in JSON"]);
    assert_eq!(messages(r#"{"a":1 ,  }"#, true), vec!["Trailing commas are not allowed in JSON"]);
}

#[test]
fn error_unterminated_block_comment() {
    assert_eq!(
        messages("/* x", false),
        vec!["Unterminated block comment", "Unexpected character 'x'"]
    );
}

#[test]
fn escaped_non_ascii_is_refused_by_try_parse() {
    let source = "\"\\\u{e9}\"";
    assert!(JsonParser::new(source, JsonParseOptions::default()).try_parse().is_none());
    // The same byte outside a string is no problem.
    let source = "// \\\u{e9}\n1";
    let result = JsonParser::new(source, JsonParseOptions::default()).try_parse().unwrap();
    assert!(result.errors.is_empty());
}

#[test]
fn try_parse_agrees_with_parse() {
    let source = r#"{"a": [1, "x\n"], /* c */ "b": null}"#;
    let r1 = JsonParser::new(source, JsonParseOptions::default()).try_parse().unwrap();
    let r2 = parse(source);
    assert_eq!(r1.value, r2.value);
    assert_eq!(r1.comments, r2.comments);
    assert_eq!(r1.errors, r2.errors);
}

#[test]
fn strict_json_parses_the_same_as_jsonc() {
    for source in [r#"{"a": [1, 2.5e3, true], "b": {"c": null}}"#, "  \"x\\ty\"  ", "[]", "-0.5"] {
        let strict = parse_json(source);
        let jsonc = parse(source);
        assert!(strict.errors.is_empty());
        assert!(jsonc.errors.is_empty());
        assert_eq!(strict.value, jsonc.value);
        assert_eq!(strict.comments, jsonc.comments);
    }
}

#[test]
fn strict_mode_reports_every_comment() {
    let source = "/* a */ [1, // b\n 2] // c";
    let strict = parse_json(source);
    assert_eq!(strict.comments.len(), 3);
    assert_eq!(strict.errors.len(), 3);
    let jsonc = parse(source);
    assert_eq!(jsonc.comments.len(), 3);
    assert!(jsonc.errors.is_empty());
}

#[test]
fn comments_are_source_text() {
    let source = "/* a */ [1, // b\n 2] // c";
    let result = parse(source);
    for c in &result.comments {
        let text = &source[c.span.start as usize..c.span.end as usize];
        match c.kind {
            JsonCommentKind::Line => assert_eq!(&text[2..], c.value),
            JsonCommentKind::Block => assert_eq!(&text[2..text.len() - 2], c.value),
        }
    }
    assert_eq!(result.comments[0].value, " a ");
    assert_eq!(result.comments[1].value, " b");
    assert_eq!(result.comments[2].value, " c");
}

#[test]
fn values_are_source_text() {
    let source = " { \"k\" : [ 10 , true , \"v\" ] } ";
    let result = parse(source);
    assert!(result.errors.is_empty());
    let text = |s: oxc_json::Span| &source[s.start as usize..s.end as usize];
    assert_eq!(result.value.span().start, 1);
    let obj = result.value.as_object().unwrap();
    let prop = &obj.properties[0];
    assert_eq!(text(prop.span), "\"k\" : [ 10 , true , \"v\" ]");
    assert_eq!(text(prop.key.span), "\"k\"");
    let arr = prop.value.as_array().unwrap();
    assert_eq!(text(arr.span), "[ 10 , true , \"v\" ]");
    assert_eq!(text(arr.elements[0].span()), "10");
    assert_eq!(text(arr.elements[1].span()), "true");
    assert_eq!(text(arr.elements[2].span()), "\"v\"");
}

#[test]
fn unicode_escapes_decode() {
    assert_eq!(parse(r#""\u00e9\u4f60""#).value.as_str(), Some("\u{e9}\u{4f60}"));
    assert_eq!(parse(r#""a\uD83D\uDE00b""#).value.as_str(), Some("a\u{1F600}b"));
    assert_eq!(parse(r#""\"\\\/\b\f\n\r\t""#).value.as_str(), Some("\"\\/\u{8}\u{c}\n\r\t"));
}

#[test]
fn object_get_finds_first_match() {
    let result = parse(r#"{"a": 1, "b": 2, "a": 3}"#);
    let obj = result.value.as_object().unwrap();
    let first = obj.get("a").unwrap();
    assert_eq!(first.span.start, 1);
    assert!(obj.get("c").is_none());
    assert!(matches!(obj.get_value("b"), Some(JsonValue::Number(n)) if n.raw == "2"));
}

#[test]
fn value_accessors() {
    let result = parse("[true, {}, [], \"s\", 1, null]");
    let arr = result.value.as_array().unwrap();
    assert_eq!(arr.elements[0].as_bool(), Some(true));
    assert!(arr.elements[0].as_str().is_none());
    assert!(arr.elements[1].as_object().is_some());
    assert!(arr.elements[1].as_array().is_none());
    assert!(arr.elements[2].as_array().is_some());
    assert_eq!(arr.elements[3].as_str(), Some("s"));
    assert!(arr.elements[4].as_bool().is_none());
    assert!(matches!(arr.elements[5], JsonValue::Null(_)));
}

#[test]
fn options() {
    let d = JsonParseOptions::default();
    assert!(d.allow_comments && d.allow_trailing_commas);
    let s = JsonParseOptions::strict();
    assert!(!s.allow_comments && !s.allow_trailing_commas);
}

#[test]
fn errors_carry_their_source_range() {
    let result = parse("1 2");
    assert_eq!(result.errors.len(), 1);
    let labels = result.errors[0].labels.as_slice();
    assert_eq!(labels.len(), 1);
    assert_eq!((labels[0].offset(), labels[0].len()), (2, 1));
    assert_eq!(labels[0].label(), None);

    let result = parse_json("[1, /* c */ 2]");
    assert_eq!(result.errors.len(), 1);
    assert_eq!(result.errors[0].message, "Comments are not allowed in JSON");
    let labels = result.errors[0].labels.as_slice();
    assert_eq!((labels[0].offset(), labels[0].len()), (4, 2));
}

#[test]
fn options_change_only_what_is_reported() {
    let source = "{ /* c */ \"a\": [1, 2,], // d\n \"b\": x, }";
    let jsonc = parse(source);
    let strict = parse_json(source);
    assert_eq!(jsonc.value, strict.value);
    assert_eq!(jsonc.comments, strict.comments);
    let jsonc_messages: Vec<String> = jsonc.errors.iter().map(|e| e.message.to_string()).collect();
    let strict_messages: Vec<String> = strict.errors.iter().map(|e| e.message.to_string()).collect();
    assert_eq!(jsonc_messages, vec!["Unexpected character 'x'"]);
    assert_eq!(
        strict_messages,
        vec![
            "Comments are not allowed in JSON",
            "Trailing commas are not allowed in JSON",
            "Comments are not allowed in JSON",
            "Unexpected character 'x'",
            "Trailing commas are not allowed in JSON",
        ]
    );
    let kept: Vec<String> = strict_messages
        .into_iter()
        .filter(|m| {
            m != "Comments are not allowed in JSON" && m != "Trailing commas are not allowed in JSON"
        })
        .collect();
    assert_eq!(kept, jsonc_messages);
}

#[test]
fn comments_in_source_order() {
    let source = "/**/// a\n[1, /* b */ 2] // c";
    let result = parse(source);
    assert!(result.errors.is_empty());
    let spans: Vec<(u32, u32)> = result.comments.iter().map(|c| (c.span.start, c.span.end)).collect();
    assert_eq!(spans, vec![(0, 4), (4, 8), (13, 20), (24, 28)]);
    for pair in spans.windows(2) {
        assert!(pair[0].1 <= pair[1].0);
    }
}

#[test]
fn lists_close_after_their_last_member() {
    let options = JsonParseOptions { allow_comments: true, allow_trailing_commas: false };
    let source = "[1 /* c */ ]";
    let result = JsonParser::new(source, options).try_parse().unwrap();
    assert!(result.errors.is_empty());
    let arr = result.value.as_array().unwrap();
    let last_end = arr.elements[0].span().end as usize;
    assert_eq!(last_end, 2);
    assert_eq!(arr.span.end, 12);
    assert_eq!(source[last_end..arr.span.end as usize - 1].trim(), "/* c */");

    let result = JsonParser::new("[1, ]", options).try_parse().unwrap();
    let messages: Vec<String> = result.errors.iter().map(|e| e.message.to_string()).collect();
    assert_eq!(messages, vec!["Trailing commas are not allowed in JSON"]);
}

#[test]
fn clone_keeps_the_tree() {
    let result = parse(r#"{"a": ["x\n", "y", 1, true, null], "b": {"c": "d"}}"#);
    let copy = result.value.clone();
    assert_eq!(copy, result.value);
    let obj = copy.as_object().unwrap();
    let arr = obj.properties[0].value.as_array().unwrap();
    if let JsonValue::String(s) = &arr.elements[1] {
        assert!(matches!(s.value, Cow::Borrowed(_)));
    } else {
        panic!("expected string");
    }
    if let JsonValue::String(s) = &arr.elements[0] {
        assert!(matches!(s.value, Cow::Owned(_)));
        assert_eq!(s.value.as_ref(), "x\n");
    } else {
        panic!("expected string");
    }
    let prop = obj.properties[1].clone();
    assert_eq!(prop, obj.properties[1]);
}

#[test]
fn written_text_reads_back() {
    // é as itself and as \u00E9, 𝄞 as a surrogate pair, '/' escaped, a tab as \u0009
    let source = "\"é\\u00E9\\uD834\\uDD1E\\/\\u0009x\"";
    let result = parse(source);
    assert!(result.errors.is_empty());
    assert_eq!(result.value.as_str(), Some("éé𝄞/\tx"));
    if let JsonValue::String(s) = &result.value {
        assert_eq!(s.raw, &source[1..source.len() - 1]);
        assert_eq!((s.span.start, s.span.end), (0, source.len() as u32));
    } else {
        panic!("expected string");
    }
}

#[test]
fn clean_parse_is_delimited() {
    let source = " { \"a\" /*x*/ : 1 , \"b\" : [ 2 ,3 ] } // end";
    let result = parse_json(" { \"a\" : 1 , \"b\" : [ 2 ,3 ] } ");
    assert!(result.errors.is_empty());
    let result2 = parse(source);
    assert!(result2.errors.is_empty());
    let obj = result2.value.as_object().unwrap();
    let (a, b) = (&obj.properties[0], &obj.properties[1]);
    assert_eq!(source[a.key.span.end as usize..a.value.span().start as usize].trim(), "/*x*/ :");
    assert_eq!(source[a.span.end as usize..b.span.start as usize].trim(), ",");
    assert_eq!(&source[obj.span.end as usize - 1..obj.span.end as usize], "}");
    assert_eq!(source[obj.span.end as usize..].trim(), "// end");
    let arr = b.value.as_array().unwrap();
    assert!(arr.elements[0].span().end <= arr.elements[1].span().start);
    assert_eq!(source[arr.elements[0].span().end as usize..arr.elements[1].span().start as usize].trim(), ",");
}

#[test]
fn comments_stand_apart_from_strings() {
    let source = "{\"a//b\": /* c */ \"x/*y*/\"}";
    let result = parse(source);
    assert!(result.errors.is_empty());
    assert_eq!(result.comments.len(), 1);
    let c = &result.comments[0];
    assert_eq!((c.span.start, c.span.end), (9, 16));
    let obj = result.value.as_object().unwrap();
    assert_eq!(obj.properties[0].key.value, "a//b");
    assert_eq!(obj.properties[0].value.as_str(), Some("x/*y*/"));
}

#[test]
fn block_comment_ends_at_first_close() {
    let result = parse("[1 /* a * / b */ ]");
    assert!(result.errors.is_empty());
    assert_eq!(result.comments[0].value, " a * / b ");
    let result = parse("[1 /* never");
    let messages: Vec<String> = result.errors.iter().map(|e| e.message.to_string()).collect();
    assert_eq!(messages[0], "Unterminated block comment");
    assert!(result.comments.is_empty());
    let labels = result.errors[0].labels.as_slice();
    assert_eq!(labels[0].offset(), 3);
}
