use simple_json_parser::{
    parse, parse_with_exit_signal, JSONKey, JSONParseError, JSONParseErrorReason, RootJSONValue,
};

type Events<'a> = Vec<(Vec<JSONKey<'a>>, RootJSONValue<'a>)>;

fn scan(on: &str) -> (Events<'_>, Result<(), JSONParseError>) {
    let mut events = Vec::new();
    let result = parse(on, |keys, value| events.push((keys.to_vec(), value)));
    (events, result)
}

fn scan_until(on: &str, stop_at: usize) -> (Events<'_>, Result<(), JSONParseError>) {
    let mut events = Vec::new();
    let result = parse_with_exit_signal(on, |keys, value| {
        events.push((keys.to_vec(), value));
        events.len() == stop_at
    });
    (events, result)
}

fn failure(on: &str) -> (usize, JSONParseErrorReason) {
    let e = scan(on).1.unwrap_err();
    (e.at, e.reason)
}

#[test]
fn root_number() {
    let (events, result) = scan("199");
    assert!(result.is_ok());
    assert_eq!(events, vec![(vec![], RootJSONValue::Number("199"))]);
}

#[test]
fn root_literals_and_string() {
    assert_eq!(scan("true").0, vec![(vec![], RootJSONValue::True)]);
    assert_eq!(scan("false").0, vec![(vec![], RootJSONValue::False)]);
    assert_eq!(scan("null").0, vec![(vec![], RootJSONValue::Null)]);
    assert_eq!(scan("\"Hiya\"").0, vec![(vec![], RootJSONValue::String("Hiya"))]);
    for on in ["true", "false", "null", "\"Hiya\"", "199"] {
        assert!(scan(on).1.is_ok());
    }
}

#[test]
fn root_array() {
    let (events, result) = scan("[1,2]");
    assert!(result.is_ok());
    assert_eq!(
        events,
        vec![
            (vec![JSONKey::Index(0)], RootJSONValue::Number("1")),
            (vec![JSONKey::Index(1)], RootJSONValue::Number("2")),
        ]
    );
    let (events, result) = scan("[1, 2, \"something\"]");
    assert!(result.is_ok());
    assert_eq!(events.len(), 3);
    assert_eq!(events[2], (vec![JSONKey::Index(2)], RootJSONValue::String("something")));
}

#[test]
fn nested_paths() {
    let on = r#"{"a":{"b":[1,{"c":true}]},"d":"x","e":[[null],[false,-2.5e3]]}"#;
    let (events, result) = scan(on);
    assert!(result.is_ok());
    assert_eq!(
        events,
        vec![
            (
                vec![JSONKey::Slice("a"), JSONKey::Slice("b"), JSONKey::Index(0)],
                RootJSONValue::Number("1"),
            ),
            (
                vec![JSONKey::Slice("a"), JSONKey::Slice("b"), JSONKey::Index(1), JSONKey::Slice("c")],
                RootJSONValue::True,
            ),
            (vec![JSONKey::Slice("d")], RootJSONValue::String("x")),
            (
                vec![JSONKey::Slice("e"), JSONKey::Index(0), JSONKey::Index(0)],
                RootJSONValue::Null,
            ),
            (
                vec![JSONKey::Slice("e"), JSONKey::Index(1), JSONKey::Index(0)],
                RootJSONValue::False,
            ),
            (
                vec![JSONKey::Slice("e"), JSONKey::Index(1), JSONKey::Index(1)],
                RootJSONValue::Number("-2.5e3"),
            ),
        ]
    );
}

#[test]
fn empty_objects_close() {
    let (events, result) = scan(r#"{"a":{},"b":[{}],"c":1}"#);
    assert!(result.is_ok());
    assert_eq!(events, vec![(vec![JSONKey::Slice("c")], RootJSONValue::Number("1"))]);
    assert_eq!(scan("{}"), (vec![], Ok(())));
}

#[test]
fn empty_array_is_rejected() {
    assert_eq!(failure("[]"), (1, JSONParseErrorReason::ExpectedValue));
}

#[test]
fn rescanning_is_deterministic() {
    let on = r#"{"k":[1,"two",{"three":null}], "z": false}"#;
    let first = scan(on);
    let second = scan(on);
    assert_eq!(first, second);
    assert_eq!(first.0.len(), 4);
}

#[test]
fn early_exit_stops_after_signal() {
    let (events, result) = scan_until("[1,2,3]", 2);
    assert!(result.is_ok());
    assert_eq!(events.len(), 2);
    assert_eq!(events[1], (vec![JSONKey::Index(1)], RootJSONValue::Number("2")));
}

#[test]
fn early_exit_ignores_invalid_rest() {
    let (events, result) = scan_until("[true, false, oops", 2);
    assert!(result.is_ok());
    assert_eq!(
        events,
        vec![
            (vec![JSONKey::Index(0)], RootJSONValue::True),
            (vec![JSONKey::Index(1)], RootJSONValue::False),
        ]
    );
}

#[test]
fn early_exit_on_trailing_number() {
    let (events, result) = scan_until("{\"a\":5", 1);
    assert!(result.is_ok());
    assert_eq!(events.len(), 1);
}

#[test]
fn no_exit_signal_scans_everything() {
    let (events, result) = scan_until("[1,2,3]", 0);
    assert!(result.is_ok());
    assert_eq!(events.len(), 3);
}

#[test]
fn comment_is_transparent() {
    let with = scan("{\"a\": 1 // x\n}");
    let without = scan("{\"a\": 1}");
    assert_eq!(with, without);
    assert_eq!(with.0, vec![(vec![JSONKey::Slice("a")], RootJSONValue::Number("1"))]);
    assert!(with.1.is_ok());
}

#[test]
fn comments_in_document() {
    let content = r#"// Something
    {
        "a": 2,
        // Another
        "b": 5,
        # another comment
    }"#;
    let (events, result) = scan(content);
    assert!(result.is_ok());
    assert_eq!(
        events,
        vec![
            (vec![JSONKey::Slice("a")], RootJSONValue::Number("2")),
            (vec![JSONKey::Slice("b")], RootJSONValue::Number("5")),
        ]
    );
}

#[test]
fn block_comment_in_array() {
    let (events, result) = scan("[ /* one */ 1, /* t*w*o */ 2]");
    assert!(result.is_ok());
    assert_eq!(
        events,
        vec![
            (vec![JSONKey::Index(0)], RootJSONValue::Number("1")),
            (vec![JSONKey::Index(1)], RootJSONValue::Number("2")),
        ]
    );
}

#[test]
fn trailing_line_comment_is_accepted() {
    assert_eq!(scan("1 // end").1, Ok(()));
    assert_eq!(scan("true # end").1, Ok(()));
}

#[test]
fn missing_colon() {
    let (events, result) = scan("{\"a\" 1}");
    assert!(events.is_empty());
    let e = result.unwrap_err();
    assert_eq!(e.at, 5);
    assert_eq!(e.reason, JSONParseErrorReason::ExpectedColon);
}

#[test]
fn missing_closing_brace() {
    let (events, result) = scan("{\"a\":1");
    assert_eq!(events, vec![(vec![JSONKey::Slice("a")], RootJSONValue::Number("1"))]);
    let e = result.unwrap_err();
    assert_eq!(e.at, 6);
    assert_eq!(e.reason, JSONParseErrorReason::ExpectedBracket);
}

#[test]
fn trailing_number_emitted_before_error() {
    let (events, result) = scan("{\"a\":5");
    assert_eq!(events, vec![(vec![JSONKey::Slice("a")], RootJSONValue::Number("5"))]);
    assert_eq!(result.unwrap_err().reason, JSONParseErrorReason::ExpectedBracket);
}

#[test]
fn bad_literal() {
    assert_eq!(failure("tru"), (3, JSONParseErrorReason::ExpectedTrueFalseNull));
    assert_eq!(failure("trux"), (3, JSONParseErrorReason::ExpectedTrueFalseNull));
    assert_eq!(failure("falsy"), (4, JSONParseErrorReason::ExpectedTrueFalseNull));
    assert_eq!(failure("[nul]"), (4, JSONParseErrorReason::ExpectedTrueFalseNull));
}

#[test]
fn every_error_reason() {
    assert_eq!(failure("1 2"), (2, JSONParseErrorReason::ExpectedEndOfValue));
    assert_eq!(failure("]"), (0, JSONParseErrorReason::ExpectedValue));
    assert_eq!(failure("/* open"), (7, JSONParseErrorReason::ExpectedEndOfMultilineComment));
    assert_eq!(failure("\"abc"), (4, JSONParseErrorReason::ExpectedQuote));
    assert_eq!(failure("{\"ab"), (4, JSONParseErrorReason::ExpectedQuote));
    assert_eq!(failure("{\"a\""), (4, JSONParseErrorReason::ExpectedColon));
    assert_eq!(failure("{"), (1, JSONParseErrorReason::ExpectedBracket));
    assert_eq!(failure("[1,"), (3, JSONParseErrorReason::ExpectedBracket));
    assert_eq!(failure("{\"a\":1]"), (6, JSONParseErrorReason::ExpectedEndOfValue));
}

#[test]
fn offsets_count_bytes() {
    assert_eq!(failure("[\"é\" x]"), (6, JSONParseErrorReason::ExpectedEndOfValue));
    let (events, result) = scan("{\"ключ\":\"значение\"}");
    assert!(result.is_ok());
    assert_eq!(events, vec![(vec![JSONKey::Slice("ключ")], RootJSONValue::String("значение"))]);
}

#[test]
fn escapes_stay_raw() {
    let (events, result) = scan(r#"["a\"b", "c\\", "d"]"#);
    assert!(result.is_ok());
    assert_eq!(
        events,
        vec![
            (vec![JSONKey::Index(0)], RootJSONValue::String(r#"a\"b"#)),
            (vec![JSONKey::Index(1)], RootJSONValue::String(r#"c\\"#)),
            (vec![JSONKey::Index(2)], RootJSONValue::String("d")),
        ]
    );
}

#[test]
fn unicode_whitespace_is_skipped() {
    let (events, result) = scan("\u{a0}[\u{2003}7\u{3000}]");
    assert!(result.is_ok());
    assert_eq!(events, vec![(vec![JSONKey::Index(0)], RootJSONValue::Number("7"))]);
}

#[test]
fn numbers_are_unvalidated() {
    let (events, result) = scan("[007, -, 1e]");
    assert!(result.is_ok());
    let values: Vec<_> = events.into_iter().map(|(_, v)| v).collect();
    assert_eq!(
        values,
        vec![RootJSONValue::Number("007"), RootJSONValue::Number("-"), RootJSONValue::Number("1e")]
    );
}

#[test]
fn error_message() {
    let e = JSONParseError { at: 5, reason: JSONParseErrorReason::ExpectedColon };
    assert_eq!(e.to_string(), "JSONParseError: ExpectedColon at 5");
    let e = JSONParseError { at: 120, reason: JSONParseErrorReason::ExpectedEndOfMultilineComment };
    assert_eq!(e.to_string(), "JSONParseError: ExpectedEndOfMultilineComment at 120");
    let e = JSONParseError { at: 0, reason: JSONParseErrorReason::ExpectedQuote };
    assert_eq!(e.to_string(), "JSONParseError: ExpectedQuote at 0");
}

#[test]
fn empty_input_succeeds() {
    assert_eq!(scan(""), (vec![], Ok(())));
    assert_eq!(scan(" \n\t"), (vec![], Ok(())));
}

#[test]
fn block_comment_is_transparent() {
    let with = scan("{\"a\": 1 /* a * b / c */, \"b\": [2]}");
    let without = scan("{\"a\": 1 , \"b\": [2]}");
    assert_eq!(with, without);
    assert_eq!(with.0.len(), 2);
    assert!(with.1.is_ok());
}

#[test]
fn comment_keeps_error_reason() {
    let with = scan("{\"a\":1 // c\n, \"b\" 2}");
    let without = scan("{\"a\":1 , \"b\" 2}");
    assert_eq!(with.0, without.0);
    let (e1, e2) = (with.1.unwrap_err(), without.1.unwrap_err());
    assert_eq!(e1.reason, JSONParseErrorReason::ExpectedColon);
    assert_eq!(e2.reason, JSONParseErrorReason::ExpectedColon);
    assert_eq!(e1.at, e2.at + "// c\n".len());
}

#[test]
fn comment_in_array_slot_is_transparent() {
    let with = scan("[ # one\n 1, /* two */ \"x\"]");
    let without = scan("[  1,  \"x\"]");
    assert_eq!(with, without);
    assert_eq!(with.0.len(), 2);
}

#[test]
fn comment_after_array_element_ends_the_path() {
    let (events, result) = scan("[1 // x\n, 2]");
    assert_eq!(events, vec![(vec![JSONKey::Index(0)], RootJSONValue::Number("1"))]);
    assert_eq!(result.unwrap_err(), JSONParseError { at: 12, reason: JSONParseErrorReason::ExpectedBracket });
}
