//! The scanner as a mathematical machine: a configuration, the reaction to
//! one character, and the handling of the end of the input.
use vstd::prelude::*;
use vstd::utf8::encode_scalar;
use crate::types::{PathKey, Leaf, Event, JSONParseError, JSONParseErrorReason};

verus! {

/// The lexical mode of the scanner, with the text of the token in progress.
pub enum Mode {
    InKey { escaped: bool, text: Seq<char> },
    Colon,
    InObject,
    Comment { start: nat, multiline: bool, last_was_asterisk: bool, hash: bool },
    ExpectingValue,
    StringValue { escaped: bool, text: Seq<char> },
    NumberValue { text: Seq<char> },
    TrueFalseNull { text: Seq<char> },
    EndOfValue,
}

/// The text of the token in progress, if any.
pub open spec fn text_of(mode: Mode) -> Seq<char> {
    match mode {
        Mode::InKey { text, .. } => text,
        Mode::StringValue { text, .. } => text,
        Mode::NumberValue { text } => text,
        Mode::TrueFalseNull { text } => text,
        _ => seq![],
    }
}

/// A configuration: mode, current path, values reported so far, the byte
/// offset of the next character, and the error that stopped the scan.
pub struct Scan {
    pub mode: Mode,
    pub path: Seq<PathKey>,
    pub events: Seq<Event>,
    pub at: nat,
    pub failed: Option<JSONParseError>,
}

/// `char::is_whitespace`: the characters with the Unicode White_Space property.
pub open spec fn is_ws(c: char) -> bool {
    ||| '\u{9}' <= c <= '\u{d}'
    ||| c == ' '
    ||| c == '\u{85}'
    ||| c == '\u{a0}'
    ||| c == '\u{1680}'
    ||| '\u{2000}' <= c <= '\u{200a}'
    ||| c == '\u{2028}'
    ||| c == '\u{2029}'
    ||| c == '\u{202f}'
    ||| c == '\u{205f}'
    ||| c == '\u{3000}'
}

/// Number of bytes of `c` in UTF-8.
pub open spec fn width(c: char) -> nat {
    encode_scalar(c as u32).len()
}

pub open spec fn top_is_index(path: Seq<PathKey>) -> bool {
    path.len() > 0 && path.last() is Index
}

pub open spec fn top_is_slice(path: Seq<PathKey>) -> bool {
    path.len() > 0 && path.last() is Slice
}

/// Removes the top of the path; an empty path stays empty.
pub open spec fn pop(path: Seq<PathKey>) -> Seq<PathKey> {
    if path.len() > 0 {
        path.drop_last()
    } else {
        path
    }
}

/// The mode in which scanning resumes after a comment.
pub open spec fn resume(path: Seq<PathKey>) -> Mode {
    if top_is_index(path) {
        Mode::ExpectingValue
    } else {
        Mode::InObject
    }
}

pub open spec fn lit_true() -> Seq<char> {
    seq!['t', 'r', 'u', 'e']
}

pub open spec fn lit_false() -> Seq<char> {
    seq!['f', 'a', 'l', 's', 'e']
}

pub open spec fn lit_null() -> Seq<char> {
    seq!['n', 'u', 'l', 'l']
}

/// A character that ends a number.
pub open spec fn ends_number(c: char) -> bool {
    is_ws(c) || c == '}' || c == ',' || c == ']'
}

pub open spec fn with_mode(sc: Scan, mode: Mode) -> Scan {
    Scan { mode, ..sc }
}

pub open spec fn with_path(sc: Scan, mode: Mode, path: Seq<PathKey>) -> Scan {
    Scan { mode, path, ..sc }
}

/// Reports `value` at the current path.
pub open spec fn emit(sc: Scan, value: Leaf) -> Scan {
    Scan { events: sc.events.push(Event { path: sc.path, value }), ..sc }
}

/// Stops the scan at the offset of the current character.
pub open spec fn fail(sc: Scan, reason: JSONParseErrorReason) -> Scan {
    Scan { failed: Some(JSONParseError { at: sc.at as usize, reason }), ..sc }
}

/// Reports the number in progress and moves to the end of a value.
pub open spec fn settle(sc: Scan) -> Scan {
    match sc.mode {
        Mode::NumberValue { text } => with_mode(emit(sc, Leaf::Number(text)), Mode::EndOfValue),
        _ => sc,
    }
}

/// What follows a complete value: a separator, a closer, a comment or
/// whitespace.
pub open spec fn end_of_value(sc: Scan, c: char) -> Scan {
    let path = sc.path;
    if c == ',' {
        if top_is_index(path) {
            let i = path.last()->Index_0;
            with_path(sc, Mode::ExpectingValue, path.update(path.len() - 1, PathKey::Index(i + 1)))
        } else {
            with_path(sc, Mode::InObject, pop(path))
        }
    } else if c == '}' && top_is_slice(path) {
        with_path(sc, Mode::EndOfValue, pop(path))
    } else if c == ']' && top_is_index(path) {
        with_path(sc, Mode::EndOfValue, pop(path))
    } else if c == '/' || c == '#' {
        with_path(
            sc,
            Mode::Comment { start: sc.at, multiline: false, last_was_asterisk: false, hash: c == '#' },
            pop(path),
        )
    } else if !is_ws(c) {
        fail(sc, JSONParseErrorReason::ExpectedEndOfValue)
    } else {
        sc
    }
}

/// The reaction of a running scan to the character `c` at byte offset `sc.at`.
pub open spec fn react(sc: Scan, c: char) -> Scan {
    match sc.mode {
        Mode::InKey { escaped, text } => {
            if !escaped && c == '"' {
                with_path(sc, Mode::Colon, sc.path.push(PathKey::Slice(text)))
            } else {
                with_mode(sc, Mode::InKey { escaped: !escaped && c == '\\', text: text.push(c) })
            }
        },
        Mode::StringValue { escaped, text } => {
            if !escaped && c == '"' {
                with_mode(emit(sc, Leaf::String(text)), Mode::EndOfValue)
            } else {
                with_mode(sc, Mode::StringValue { escaped: !escaped && c == '\\', text: text.push(c) })
            }
        },
        Mode::Colon => {
            if c == ':' {
                with_mode(sc, Mode::ExpectingValue)
            } else if is_ws(c) {
                sc
            } else {
                fail(sc, JSONParseErrorReason::ExpectedColon)
            }
        },
        Mode::EndOfValue => end_of_value(sc, c),
        Mode::Comment { start, multiline, last_was_asterisk, hash } => {
            if c == '\n' && !multiline {
                with_mode(sc, resume(sc.path))
            } else if c == '*' && start + 1 == sc.at && !hash {
                with_mode(sc, Mode::Comment { start, multiline: true, last_was_asterisk, hash })
            } else if multiline {
                if last_was_asterisk && c == '/' {
                    with_mode(sc, resume(sc.path))
                } else {
                    with_mode(sc, Mode::Comment { start, multiline, last_was_asterisk: c == '*', hash })
                }
            } else {
                sc
            }
        },
        Mode::ExpectingValue => {
            if c == '{' {
                with_mode(sc, Mode::InObject)
            } else if c == '[' {
                with_path(sc, Mode::ExpectingValue, sc.path.push(PathKey::Index(0)))
            } else if c == '"' {
                with_mode(sc, Mode::StringValue { escaped: false, text: seq![] })
            } else if c == '/' || c == '#' {
                with_mode(
                    sc,
                    Mode::Comment { start: sc.at, multiline: false, last_was_asterisk: false, hash: c == '#' },
                )
            } else if ('0' <= c <= '9') || c == '-' {
                with_mode(sc, Mode::NumberValue { text: seq![c] })
            } else if c == 't' || c == 'f' || c == 'n' {
                with_mode(sc, Mode::TrueFalseNull { text: seq![c] })
            } else if is_ws(c) {
                sc
            } else {
                fail(sc, JSONParseErrorReason::ExpectedValue)
            }
        },
        Mode::InObject => {
            if c == '"' {
                with_mode(sc, Mode::InKey { escaped: false, text: seq![] })
            } else if c == '}' {
                with_mode(sc, Mode::EndOfValue)
            } else {
                sc
            }
        },
        Mode::NumberValue { text } => {
            if ends_number(c) {
                end_of_value(settle(sc), c)
            } else {
                with_mode(sc, Mode::NumberValue { text: text.push(c) })
            }
        },
        Mode::TrueFalseNull { text } => {
            let w = text.push(c);
            if w.len() < 4 {
                with_mode(sc, Mode::TrueFalseNull { text: w })
            } else if w.len() == 4 {
                if w == lit_true() {
                    with_mode(emit(sc, Leaf::True), Mode::EndOfValue)
                } else if w == lit_null() {
                    with_mode(emit(sc, Leaf::Null), Mode::EndOfValue)
                } else if w == lit_false().take(4) {
                    with_mode(sc, Mode::TrueFalseNull { text: w })
                } else {
                    fail(sc, JSONParseErrorReason::ExpectedTrueFalseNull)
                }
            } else if w == lit_false() {
                with_mode(emit(sc, Leaf::False), Mode::EndOfValue)
            } else {
                fail(sc, JSONParseErrorReason::ExpectedTrueFalseNull)
            }
        },
    }
}

/// Feeds one character; a stopped scan stays as it is.
pub open spec fn feed(sc: Scan, c: char) -> Scan {
    if sc.failed is Some {
        sc
    } else {
        Scan { at: sc.at + width(c), ..react(sc, c) }
    }
}

/// Feeds a sequence of characters, first to last.
pub open spec fn run(sc: Scan, s: Seq<char>) -> Scan
    decreases s.len(),
{
    if s.len() == 0 {
        sc
    } else {
        feed(run(sc, s.drop_last()), s.last())
    }
}

/// The configuration before the first character.
pub open spec fn start() -> Scan {
    Scan { mode: Mode::ExpectingValue, path: seq![], events: seq![], at: 0, failed: None }
}

/// The end of the input: what is reported, and how the scan ends.
pub open spec fn finish(sc: Scan) -> (Seq<Event>, Result<(), JSONParseError>) {
    let end = JSONParseError { at: sc.at as usize, reason: JSONParseErrorReason::ExpectedBracket };
    let closed = if sc.path.len() == 0 { Ok(()) } else { Err(end) };
    if sc.failed is Some {
        (sc.events, Err(sc.failed->0))
    } else {
        match sc.mode {
            Mode::InKey { .. } | Mode::StringValue { .. } => (
                sc.events,
                Err(JSONParseError { reason: JSONParseErrorReason::ExpectedQuote, ..end }),
            ),
            Mode::Colon => (
                sc.events,
                Err(JSONParseError { reason: JSONParseErrorReason::ExpectedColon, ..end }),
            ),
            Mode::Comment { multiline, .. } => if multiline {
                (
                    sc.events,
                    Err(
                        JSONParseError {
                            reason: JSONParseErrorReason::ExpectedEndOfMultilineComment,
                            ..end
                        },
                    ),
                )
            } else {
                (sc.events, Ok(()))
            },
            Mode::EndOfValue | Mode::ExpectingValue => (sc.events, closed),
            Mode::InObject => (sc.events, Err(end)),
            Mode::NumberValue { text } => (settle(sc).events, closed),
            Mode::TrueFalseNull { .. } => (
                sc.events,
                Err(JSONParseError { reason: JSONParseErrorReason::ExpectedTrueFalseNull, ..end }),
            ),
        }
    }
}

/// Every value reported while scanning `s`, in order.
pub open spec fn scan_events(s: Seq<char>) -> Seq<Event> {
    finish(run(start(), s)).0
}

/// How a complete scan of `s` ends.
pub open spec fn scan_result(s: Seq<char>) -> Result<(), JSONParseError> {
    finish(run(start(), s)).1
}

/// Feeding a character only appends to the values reported.
pub proof fn lemma_feed_grows(sc: Scan, c: char)
    ensures
        sc.events.is_prefix_of(feed(sc, c).events),
{
    let n = feed(sc, c);
    assert(n.events == sc.events || n.events == sc.events.push(n.events.last()));
    if n.events != sc.events {
        assert(sc.events =~= n.events.subrange(0, sc.events.len() as int));
    } else {
        assert(sc.events =~= n.events.subrange(0, sc.events.len() as int));
    }
}

/// Running only appends to the values reported.
pub proof fn lemma_run_grows(sc: Scan, s: Seq<char>)
    ensures
        sc.events.is_prefix_of(run(sc, s).events),
    decreases s.len(),
{
    if s.len() > 0 {
        lemma_run_grows(sc, s.drop_last());
        let mid = run(sc, s.drop_last());
        lemma_feed_grows(mid, s.last());
        assert(sc.events =~= run(sc, s).events.subrange(0, sc.events.len() as int)) by {
            assert(mid.events.is_prefix_of(run(sc, s).events));
            assert(sc.events.is_prefix_of(mid.events));
            assert forall|i: int| 0 <= i < sc.events.len() implies sc.events[i] == run(sc, s).events[i] by {
                assert(sc.events[i] == mid.events.subrange(0, sc.events.len() as int)[i]);
                assert(mid.events[i] == run(sc, s).events.subrange(0, mid.events.len() as int)[i]);
            }
        }
    }
}

/// The end of the input only appends to the values reported.
pub proof fn lemma_finish_grows(sc: Scan)
    ensures
        sc.events.is_prefix_of(finish(sc).0),
{
    assert(sc.events =~= finish(sc).0.subrange(0, sc.events.len() as int));
}

/// Every value reported so far is among the values of the whole scan.
pub proof fn lemma_prefix_of_total(sc: Scan, s: Seq<char>)
    ensures
        sc.events.is_prefix_of(finish(run(sc, s)).0),
{
    lemma_run_grows(sc, s);
    lemma_finish_grows(run(sc, s));
    let a = sc.events;
    let b = run(sc, s).events;
    let c = finish(run(sc, s)).0;
    assert forall|i: int| 0 <= i < a.len() implies a[i] == c[i] by {
        assert(a[i] == b.subrange(0, a.len() as int)[i]);
        assert(b[i] == c.subrange(0, b.len() as int)[i]);
    }
    assert(a =~= c.subrange(0, a.len() as int));
}

/// Running on a concatenation runs on the parts in turn.
pub proof fn lemma_run_concat(sc: Scan, a: Seq<char>, b: Seq<char>)
    ensures
        run(sc, a + b) == run(run(sc, a), b),
    decreases b.len(),
{
    if b.len() == 0 {
        assert(a + b =~= a);
    } else {
        assert((a + b).drop_last() =~= a + b.drop_last());
        assert((a + b).last() == b.last());
        lemma_run_concat(sc, a, b.drop_last());
    }
}

/// Running on a non-empty sequence feeds its first character first.
pub proof fn lemma_run_first(sc: Scan, s: Seq<char>)
    requires
        s.len() > 0,
    ensures
        run(sc, s) == run(feed(sc, s[0]), s.drop_first()),
{
    assert(s =~= seq![s[0]] + s.drop_first());
    lemma_run_concat(sc, seq![s[0]], s.drop_first());
    assert(seq![s[0]].drop_last() =~= Seq::<char>::empty());
    assert(run(sc, Seq::<char>::empty()) == sc);
    assert(run(sc, seq![s[0]]) == feed(run(sc, seq![s[0]].drop_last()), seq![s[0]].last()));
}

/// A stopped scan ignores the rest of the input.
pub proof fn lemma_run_failed(sc: Scan, s: Seq<char>)
    requires
        sc.failed is Some,
    ensures
        run(sc, s) == sc,
    decreases s.len(),
{
    if s.len() > 0 {
        lemma_run_failed(sc, s.drop_last());
    }
}

} // verus!
