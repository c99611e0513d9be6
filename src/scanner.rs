//! The executable scanner: one character at a time, in step with the model.
use vstd::prelude::*;
use vstd::utf8::*;
use vstd::string::StringSliceAdditionalSpecFns;
use vstd::std_specs::iter::IteratorSpec;
use std::str::Chars;
use crate::types::{JSONKey, RootJSONValue, JSONParseError, JSONParseErrorReason, PathKey, Event, path_of};
use crate::model;
use crate::model::{
    Mode, Scan, feed, run, start, finish, settle, scan_events, scan_result, lit_true, lit_false,
    lit_null, width, ends_number, text_of, top_is_index, lemma_run_first,
    lemma_run_failed, lemma_prefix_of_total,
};
use crate::text::{
    is_whitespace, utf8_width, offset, cut, lemma_char_at, lemma_encode_concat, lemma_encode_one,
    lemma_offset_end,
};

verus! {

broadcast use {vstd::utf8::encode_utf8_valid_utf8, vstd::utf8::encode_utf8_decode_utf8};

/// The lexical mode, with byte offsets in place of token texts.
#[derive(Clone, Copy)]
pub(crate) enum State {
    InKey { escaped: bool, start: usize },
    Colon,
    InObject,
    Comment { start: usize, multiline: bool, last_was_asterisk: bool, hash: bool },
    ExpectingValue,
    StringValue { start: usize, escaped: bool },
    NumberValue { start: usize },
    TrueFalseNull { first: char, len: usize, ok: bool },
    EndOfValue,
}

/// The literal that starts with `first`.
pub(crate) open spec fn literal(first: char) -> Seq<char> {
    if first == 't' {
        lit_true()
    } else if first == 'f' {
        lit_false()
    } else {
        lit_null()
    }
}

/// The bytes from `start` to `at` encode `text`.
pub(crate) open spec fn token(bytes: Seq<u8>, start: int, at: nat, text: Seq<char>) -> bool {
    &&& 0 <= start <= at
    &&& is_char_boundary(bytes, start)
    &&& bytes.subrange(start as int, at as int) == encode_utf8(text)
}

/// An executable state stands for a mode of the model, the next character
/// being at byte offset `at`.
pub(crate) open spec fn agrees(bytes: Seq<u8>, st: State, mode: Mode, at: nat) -> bool {
    match st {
        State::InKey { escaped, start } => match mode {
            Mode::InKey { escaped: e, text } => e == escaped && token(bytes, start as int, at, text),
            _ => false,
        },
        State::Colon => mode is Colon,
        State::InObject => mode is InObject,
        State::Comment { start, multiline, last_was_asterisk, hash } => {
            &&& mode == Mode::Comment { start: start as nat, multiline, last_was_asterisk, hash }
            &&& start < at
        },
        State::ExpectingValue => mode is ExpectingValue,
        State::StringValue { start, escaped } => match mode {
            Mode::StringValue { escaped: e, text } => e == escaped && token(bytes, start as int, at, text),
            _ => false,
        },
        State::NumberValue { start } => match mode {
            Mode::NumberValue { text } => token(bytes, start as int, at, text),
            _ => false,
        },
        State::TrueFalseNull { first, len, ok } => match mode {
            Mode::TrueFalseNull { text } => {
                &&& first == 't' || first == 'f' || first == 'n'
                &&& 1 <= len == text.len() < literal(first).len()
                &&& text[0] == first
                &&& ok <==> text =~= literal(first).take(len as int)
            },
            _ => false,
        },
        State::EndOfValue => mode is EndOfValue,
    }
}

/// Every array index on the path is at most `at`.
pub(crate) open spec fn indices_within(path: Seq<PathKey>, at: nat) -> bool {
    forall|k: int| 0 <= k < path.len() && #[trigger] path[k] is Index ==> path[k]->Index_0 <= at
}

/// What one character did.
pub(crate) enum Outcome<'a> {
    Continue,
    /// A value ended at this character.
    Value(RootJSONValue<'a>),
    /// A number ended before this character, which is still to be handled.
    Held(RootJSONValue<'a>),
    Stop(JSONParseError),
}

proof fn lemma_extend(s: Seq<char>, ci: int, start: int, text: Seq<char>)
    requires
        0 <= ci < s.len(),
        token(encode_utf8(s), start, offset(s, ci), text),
    ensures
        token(encode_utf8(s), start, offset(s, ci + 1), text.push(s[ci])),
{
    lemma_char_at(s, ci);
    let b = encode_utf8(s);
    let o0 = offset(s, ci) as int;
    let o1 = offset(s, ci + 1) as int;
    assert(b.subrange(start, o1) =~= b.subrange(start, o0) + b.subrange(o0, o1));
    lemma_encode_concat(text, seq![s[ci]]);
    lemma_encode_one(s[ci]);
    assert(text.push(s[ci]) =~= text + seq![s[ci]]);
}

proof fn lemma_begin(s: Seq<char>, ci: int)
    requires
        0 <= ci < s.len(),
    ensures
        token(encode_utf8(s), offset(s, ci) as int, offset(s, ci + 1), seq![s[ci]]),
        token(encode_utf8(s), offset(s, ci + 1) as int, offset(s, ci + 1), seq![]),
{
    lemma_char_at(s, ci);
    lemma_encode_one(s[ci]);
    let b = encode_utf8(s);
    assert(b.subrange(offset(s, ci + 1) as int, offset(s, ci + 1) as int) =~= encode_utf8(
        Seq::<char>::empty(),
    ));
}

proof fn lemma_window(text: Seq<char>, c: char, first: char, ok: bool)
    requires
        first == 't' || first == 'f' || first == 'n',
        1 <= text.len() < literal(first).len(),
        text[0] == first,
        ok <==> text =~= literal(first).take(text.len() as int),
    ensures
        ({
            let w = text.push(c);
            let ok2 = ok && c == literal(first)[text.len() as int];
            &&& ok2 <==> w =~= literal(first).take(w.len() as int)
            &&& w == lit_true() <==> (w.len() == 4 && first == 't' && ok2)
            &&& w == lit_null() <==> (w.len() == 4 && first == 'n' && ok2)
            &&& w == lit_false().take(4) <==> (w.len() == 4 && first == 'f' && ok2)
            &&& w == lit_false() <==> (w.len() == 5 && first == 'f' && ok2)
        }),
{
    let w = text.push(c);
    let n = text.len() as int;
    let lit = literal(first);
    let ok2 = ok && c == lit[n];
    assert(w.take(n) =~= text);
    assert(w[n] == c);
    if ok2 {
        assert(w =~= lit.take(w.len() as int));
    }
    if w =~= lit.take(w.len() as int) {
        assert(w.take(n) =~= lit.take(n));
    }
    assert(w[0] == first);
    if w == lit_true() {
        assert(lit_true()[0] == 't');
        assert(w =~= lit.take(4));
    }
    if w == lit_null() {
        assert(lit_null()[0] == 'n');
        assert(w =~= lit.take(4));
    }
    if w == lit_false().take(4) {
        assert(lit_false().take(4)[0] == 'f');
        assert(w =~= lit.take(4));
    }
    if w == lit_false() {
        assert(lit_false()[0] == 'f');
        assert(w =~= lit.take(5));
    }
    if first == 't' && w.len() == 4 && ok2 {
        assert(w =~= lit_true());
    }
    if first == 'n' && w.len() == 4 && ok2 {
        assert(w =~= lit_null());
    }
    if first == 'f' && w.len() == 4 && ok2 {
        assert(w =~= lit_false().take(4));
    }
    if first == 'f' && w.len() == 5 && ok2 {
        assert(w =~= lit_false());
    }
}

/// The character at position `k` of the literal that starts with `first`.
fn literal_char(first: char, k: usize) -> (c: char)
    requires
        first == 't' || first == 'f' || first == 'n',
        k < literal(first).len(),
    ensures
        c == literal(first)[k as int],
{
    if first == 't' {
        if k == 0 { 't' } else if k == 1 { 'r' } else if k == 2 { 'u' } else { 'e' }
    } else if first == 'f' {
        if k == 0 { 'f' } else if k == 1 { 'a' } else if k == 2 { 'l' } else if k == 3 { 's' } else { 'e' }
    } else {
        if k == 0 { 'n' } else if k == 1 { 'u' } else { 'l' }
    }
}

proof fn lemma_path_pop<'a>(keys: Seq<JSONKey<'a>>)
    requires
        keys.len() > 0,
    ensures
        path_of(keys.drop_last()) == path_of(keys).drop_last(),
{
    assert(path_of(keys.drop_last()) =~= path_of(keys).drop_last());
}

proof fn lemma_path_push<'a>(keys: Seq<JSONKey<'a>>, k: JSONKey<'a>)
    ensures
        path_of(keys.push(k)) == path_of(keys).push(k@),
{
    assert(path_of(keys.push(k)) =~= path_of(keys).push(k@));
}

proof fn lemma_within_pop(path: Seq<PathKey>, at: nat, at2: nat)
    requires
        indices_within(path, at),
        at <= at2,
    ensures
        indices_within(model::pop(path), at2),
        indices_within(path, at2),
{
    assert forall|k: int| 0 <= k < model::pop(path).len() && #[trigger] model::pop(path)[k] is Index implies model::pop(path)[k]->Index_0 <= at2 by {
        assert(model::pop(path)[k] == path[k]);
    }
}

/// What follows a complete value, handled at byte offset `idx`.
fn end_of_value<'a>(
    idx: usize,
    chr: char,
    state: &mut State,
    key_chain: &mut Vec<JSONKey<'a>>,
    Ghost(m): Ghost<Scan>,
) -> (r: Result<(), JSONParseError>)
    requires
        m.mode is EndOfValue,
        m.failed is None,
        m.at == idx,
        idx < usize::MAX,
        *old(state) == State::EndOfValue,
        path_of(old(key_chain)@) == m.path,
        indices_within(m.path, idx as nat),
    ensures
        ({
            let n = model::end_of_value(m, chr);
            &&& n.events == m.events
            &&& match r {
                Ok(()) => {
                    &&& n.failed is None
                    &&& path_of(final(key_chain)@) == n.path
                    &&& indices_within(n.path, idx as nat + 1)
                    &&& match *final(state) {
                        State::Comment { start, multiline, last_was_asterisk, hash } =>
                            start == idx && n.mode == Mode::Comment { start: start as nat, multiline, last_was_asterisk, hash },
                        State::ExpectingValue => n.mode is ExpectingValue,
                        State::InObject => n.mode is InObject,
                        State::EndOfValue => n.mode is EndOfValue,
                        _ => false,
                    }
                },
                Err(e) => n.failed == Some(e),
            }
        }),
{
    let len = key_chain.len();
    proof {
        lemma_within_pop(m.path, idx as nat, idx as nat + 1);
        if len > 0 {
            assert(path_of(key_chain@).last() == key_chain@[len - 1]@);
        }
    }
    if chr == ',' {
        if len > 0 && matches!(key_chain[len - 1], JSONKey::Index(_)) {
            let i = match key_chain[len - 1] {
                JSONKey::Index(i) => i,
                JSONKey::Slice(_) => 0,
            };
            proof {
                assert(m.path[len - 1] is Index);
                assert(m.path[len - 1]->Index_0 == i);
            }
            let j = i + 1;
            key_chain.pop();
            key_chain.push(JSONKey::Index(j));
            proof {
                lemma_path_pop(old(key_chain)@);
                assert(key_chain@ == old(key_chain)@.drop_last().push(JSONKey::Index(j)));
                lemma_path_push(old(key_chain)@.drop_last(), JSONKey::Index(j));
                let np = m.path.update(m.path.len() - 1, PathKey::Index(i as nat + 1));
                assert(path_of(key_chain@) =~= np);
                assert forall|k: int| 0 <= k < np.len() && #[trigger] np[k] is Index implies np[k]->Index_0 <= idx + 1 by {
                    if k < np.len() - 1 {
                        assert(np[k] == m.path[k]);
                    }
                }
            }
            *state = State::ExpectingValue;
        } else {
            if len > 0 {
                key_chain.pop();
                proof { lemma_path_pop(old(key_chain)@); }
            }
            *state = State::InObject;
        }
        Ok(())
    } else if chr == '}' && len > 0 && matches!(key_chain[len - 1], JSONKey::Slice(_)) {
        key_chain.pop();
        proof { lemma_path_pop(old(key_chain)@); }
        Ok(())
    } else if chr == ']' && len > 0 && matches!(key_chain[len - 1], JSONKey::Index(_)) {
        key_chain.pop();
        proof { lemma_path_pop(old(key_chain)@); }
        Ok(())
    } else if chr == '/' || chr == '#' {
        if len > 0 {
            key_chain.pop();
            proof { lemma_path_pop(old(key_chain)@); }
        }
        *state = State::Comment { start: idx, multiline: false, last_was_asterisk: false, hash: chr == '#' };
        Ok(())
    } else if !is_whitespace(chr) {
        Err(JSONParseError { at: idx, reason: JSONParseErrorReason::ExpectedEndOfValue })
    } else {
        Ok(())
    }
}

proof fn lemma_within_push(path: Seq<PathKey>, k: PathKey, at: nat)
    requires
        indices_within(path, at),
        k is Index ==> k->Index_0 <= at,
    ensures
        indices_within(path.push(k), at),
{
    assert forall|j: int| 0 <= j < path.push(k).len() && #[trigger] path.push(k)[j] is Index implies path.push(k)[j]->Index_0 <= at by {
        if j < path.len() {
            assert(path.push(k)[j] == path[j]);
        }
    }
}

/// The mode in which scanning resumes after a comment.
fn resume_state<'a>(key_chain: &Vec<JSONKey<'a>>) -> (st: State)
    ensures
        st == (if top_is_index(path_of(key_chain@)) { State::ExpectingValue } else { State::InObject }),
{
    let len = key_chain.len();
    proof {
        if len > 0 {
            assert(path_of(key_chain@).last() == key_chain@[len - 1]@);
        }
    }
    if len > 0 && matches!(key_chain[len - 1], JSONKey::Index(_)) {
        State::ExpectingValue
    } else {
        State::InObject
    }
}

/// Handles the character `chr`, of `w` bytes, at byte offset `idx`.
#[verifier::rlimit(50)]
fn advance<'a>(
    on: &'a str,
    idx: usize,
    w: usize,
    chr: char,
    state: &mut State,
    key_chain: &mut Vec<JSONKey<'a>>,
    Ghost(m): Ghost<Scan>,
    Ghost(ci): Ghost<int>,
) -> (out: Outcome<'a>)
    requires
        0 <= ci < on@.len(),
        chr == on@[ci],
        w == width(chr),
        idx == offset(on@, ci),
        on.spec_bytes().len() <= usize::MAX,
        m.at == idx,
        m.failed is None,
        path_of(old(key_chain)@) == m.path,
        indices_within(m.path, idx as nat),
        agrees(on.spec_bytes(), *old(state), m.mode, idx as nat),
    ensures
        ({
            let n = feed(m, chr);
            let next = (idx + w) as nat;
            match out {
                Outcome::Continue => {
                    &&& n.failed is None
                    &&& n.events == m.events
                    &&& path_of(final(key_chain)@) == n.path
                    &&& indices_within(n.path, next)
                    &&& agrees(on.spec_bytes(), *final(state), n.mode, next)
                },
                Outcome::Value(v) => {
                    &&& n.failed is None
                    &&& n.events == m.events.push(Event { path: m.path, value: v@ })
                    &&& n.path == m.path
                    &&& n.mode is EndOfValue
                    &&& path_of(final(key_chain)@) == n.path
                    &&& indices_within(n.path, next)
                    &&& *final(state) == State::EndOfValue
                },
                Outcome::Held(v) => {
                    &&& m.mode is NumberValue
                    &&& ends_number(chr)
                    &&& settle(m).events == m.events.push(Event { path: m.path, value: v@ })
                    &&& *final(state) == State::EndOfValue
                    &&& final(key_chain)@ == old(key_chain)@
                },
                Outcome::Stop(e) => n.failed == Some(e) && n.events == m.events,
            }
        }),
        m.mode is EndOfValue ==> (out is Continue || out is Stop),
{
    let ghost s = on@;
    let ghost text = text_of(m.mode);
    proof {
        lemma_char_at(s, ci);
        lemma_within_pop(m.path, idx as nat, (idx + w) as nat);
    }
    match *state {
        State::InKey { escaped, start } => {
            if !escaped && chr == '"' {
                let key = cut(on, start, idx, Ghost(text));
                key_chain.push(JSONKey::Slice(key));
                proof {
                    lemma_path_push(old(key_chain)@, JSONKey::Slice(key));
                    lemma_within_push(m.path, PathKey::Slice(text), (idx + w) as nat);
                }
                *state = State::Colon;
            } else {
                proof {
                    lemma_extend(s, ci, start as int, text);
                }
                *state = State::InKey { escaped: !escaped && chr == '\\', start };
            }
            Outcome::Continue
        },
        State::StringValue { start, escaped } => {
            if !escaped && chr == '"' {
                let v = cut(on, start, idx, Ghost(text));
                *state = State::EndOfValue;
                Outcome::Value(RootJSONValue::String(v))
            } else {
                proof {
                    lemma_extend(s, ci, start as int, text);
                }
                *state = State::StringValue { start, escaped: !escaped && chr == '\\' };
                Outcome::Continue
            }
        },
        State::Colon => {
            if chr == ':' {
                *state = State::ExpectingValue;
                Outcome::Continue
            } else if is_whitespace(chr) {
                Outcome::Continue
            } else {
                Outcome::Stop(JSONParseError { at: idx, reason: JSONParseErrorReason::ExpectedColon })
            }
        },
        State::EndOfValue => {
            match end_of_value(idx, chr, state, key_chain, Ghost(m)) {
                Ok(()) => Outcome::Continue,
                Err(e) => Outcome::Stop(e),
            }
        },
        State::Comment { start, multiline, last_was_asterisk, hash } => {
            if chr == '\n' && !multiline {
                *state = resume_state(key_chain);
            } else if chr == '*' && start + 1 == idx && !hash {
                *state = State::Comment { start, multiline: true, last_was_asterisk, hash };
            } else if multiline {
                if last_was_asterisk && chr == '/' {
                    *state = resume_state(key_chain);
                } else {
                    *state = State::Comment { start, multiline, last_was_asterisk: chr == '*', hash };
                }
            }
            Outcome::Continue
        },
        State::ExpectingValue => {
            proof {
                lemma_begin(s, ci);
            }
            if chr == '{' {
                *state = State::InObject;
                Outcome::Continue
            } else if chr == '[' {
                key_chain.push(JSONKey::Index(0));
                proof {
                    lemma_path_push(old(key_chain)@, JSONKey::Index(0));
                    lemma_within_push(m.path, PathKey::Index(0), (idx + w) as nat);
                }
                Outcome::Continue
            } else if chr == '"' {
                *state = State::StringValue { start: idx + w, escaped: false };
                Outcome::Continue
            } else if chr == '/' || chr == '#' {
                *state = State::Comment { start: idx, multiline: false, last_was_asterisk: false, hash: chr == '#' };
                Outcome::Continue
            } else if ('0' <= chr && chr <= '9') || chr == '-' {
                *state = State::NumberValue { start: idx };
                Outcome::Continue
            } else if chr == 't' || chr == 'f' || chr == 'n' {
                proof {
                    assert(literal(chr)[0] == chr);
                    assert(seq![chr] =~= literal(chr).take(1));
                }
                *state = State::TrueFalseNull { first: chr, len: 1, ok: true };
                Outcome::Continue
            } else if is_whitespace(chr) {
                Outcome::Continue
            } else {
                Outcome::Stop(JSONParseError { at: idx, reason: JSONParseErrorReason::ExpectedValue })
            }
        },
        State::InObject => {
            if chr == '"' {
                proof {
                    lemma_begin(s, ci);
                }
                *state = State::InKey { escaped: false, start: idx + w };
            } else if chr == '}' {
                *state = State::EndOfValue;
            }
            Outcome::Continue
        },
        State::NumberValue { start } => {
            if is_whitespace(chr) || chr == '}' || chr == ',' || chr == ']' {
                let v = cut(on, start, idx, Ghost(text));
                *state = State::EndOfValue;
                Outcome::Held(RootJSONValue::Number(v))
            } else {
                proof {
                    lemma_extend(s, ci, start as int, text);
                }
                Outcome::Continue
            }
        },
        State::TrueFalseNull { first, len, ok } => {
            let expected = literal_char(first, len);
            let ok2 = ok && chr == expected;
            let len2 = len + 1;
            proof {
                lemma_window(text, chr, first, ok);
            }
            if len2 < 4 {
                *state = State::TrueFalseNull { first, len: len2, ok: ok2 };
                Outcome::Continue
            } else if len2 == 4 {
                if ok2 && first == 't' {
                    *state = State::EndOfValue;
                    Outcome::Value(RootJSONValue::True)
                } else if ok2 && first == 'n' {
                    *state = State::EndOfValue;
                    Outcome::Value(RootJSONValue::Null)
                } else if ok2 && first == 'f' {
                    *state = State::TrueFalseNull { first, len: len2, ok: ok2 };
                    Outcome::Continue
                } else {
                    Outcome::Stop(JSONParseError { at: idx, reason: JSONParseErrorReason::ExpectedTrueFalseNull })
                }
            } else if ok2 {
                *state = State::EndOfValue;
                Outcome::Value(RootJSONValue::False)
            } else {
                Outcome::Stop(JSONParseError { at: idx, reason: JSONParseErrorReason::ExpectedTrueFalseNull })
            }
        },
    }
}

/// What the scanner found next.
pub(crate) enum Next<'a> {
    /// A leaf value; the path to it is the scanner's current path.
    Value(RootJSONValue<'a>),
    /// The end of the scan.
    Done(Result<(), JSONParseError>),
}

/// A scan in progress over `on`, handing out one value at a time.
pub(crate) struct Scanner<'a> {
    pub(crate) on: &'a str,
    pub(crate) len: usize,
    pub(crate) chars: Chars<'a>,
    pub(crate) idx: usize,
    pub(crate) state: State,
    pub(crate) key_chain: Vec<JSONKey<'a>>,
    /// A character that ended a number and is still to be handled.
    pub(crate) held: Option<char>,
    pub(crate) model: Ghost<Scan>,
    pub(crate) ci: Ghost<int>,
}

impl<'a> Scanner<'a> {
    pub(crate) open spec fn inv(&self) -> bool {
        let s = self.on@;
        let ci = self.ci@;
        let m = self.model@;
        &&& self.len == self.on.spec_bytes().len()
        &&& 0 <= ci <= s.len()
        &&& self.idx == offset(s, ci)
        &&& m.at == self.idx
        &&& m.failed is None
        &&& path_of(self.key_chain@) == m.path
        &&& indices_within(m.path, self.idx as nat)
        &&& agrees(self.on.spec_bytes(), self.state, m.mode, self.idx as nat)
        &&& match self.held {
            None => true,
            Some(c) => {
                &&& ci < s.len()
                &&& c == s[ci]
                &&& m.mode is EndOfValue
            },
        }
        &&& finish(run(m, s.skip(ci))) == finish(run(start(), s))
    }

    /// The characters after the one at the scan position, or after the held one.
    pub(crate) open spec fn unread(&self) -> Seq<char> {
        self.on@.skip(self.ci@ + if self.held is Some {
            1int
        } else {
            0int
        })
    }

    pub(crate) open spec fn work(&self) -> int {
        2 * (self.on@.len() - self.ci@) + if self.model@.mode is NumberValue {
            1int
        } else {
            0int
        }
    }

    pub(crate) fn new(on: &'a str) -> (sc: Self)
        ensures
            sc.inv(),
            sc.chars.remaining() == sc.unread(),
            sc.on == on,
            sc.model@.events.len() == 0,
    {
        let len = on.as_bytes().len();
        proof {
            assert(on@.take(0) =~= Seq::<char>::empty());
            assert(on@.skip(0) =~= on@);
            assert(path_of(Seq::<JSONKey<'a>>::empty()) =~= Seq::<PathKey>::empty());
        }
        Scanner {
            on,
            len,
            chars: on.chars(),
            idx: 0,
            state: State::ExpectingValue,
            key_chain: Vec::new(),
            held: None,
            model: Ghost(start()),
            ci: Ghost(0),
        }
    }

    /// The end of the input, once every character has been handled.
    fn end_of_input(&mut self) -> (r: Next<'a>)
        requires
            old(self).inv(),
            old(self).ci@ == old(self).on@.len(),
            old(self).held is None,
        ensures
            final(self).on == old(self).on,
            final(self).chars == old(self).chars,
            final(self).held is None,
            final(self).ci == old(self).ci,
            match r {
                Next::Value(v) => {
                    &&& final(self).inv()
                    &&& final(self).model@.events == old(self).model@.events.push(
                        Event { path: path_of(final(self).key_chain@), value: v@ },
                    )
                    &&& final(self).work() < old(self).work()
                },
                Next::Done(res) => {
                    &&& old(self).model@.events == scan_events(old(self).on@)
                    &&& res == scan_result(old(self).on@)
                },
            },
    {
        let ghost s = self.on@;
        let ghost m = self.model@;
        proof {
            assert(s.skip(s.len() as int) =~= Seq::<char>::empty());
            lemma_offset_end(s);
            is_char_boundary_start_end_of_seq(encode_utf8(s));
        }
        let end = self.idx;
        match self.state {
            State::NumberValue { start } => {
                let v = cut(self.on, start, end, Ghost(text_of(m.mode)));
                self.state = State::EndOfValue;
                self.model = Ghost(settle(m));
                proof {
                    assert(self.model@.mode is EndOfValue);
                }
                Next::Value(RootJSONValue::Number(v))
            },
            State::InKey { .. } | State::StringValue { .. } => Next::Done(
                Err(JSONParseError { at: end, reason: JSONParseErrorReason::ExpectedQuote }),
            ),
            State::Colon => Next::Done(
                Err(JSONParseError { at: end, reason: JSONParseErrorReason::ExpectedColon }),
            ),
            State::Comment { multiline, .. } => {
                if multiline {
                    Next::Done(
                        Err(
                            JSONParseError {
                                at: end,
                                reason: JSONParseErrorReason::ExpectedEndOfMultilineComment,
                            },
                        ),
                    )
                } else {
                    Next::Done(Ok(()))
                }
            },
            State::EndOfValue | State::ExpectingValue => {
                if self.key_chain.len() == 0 {
                    Next::Done(Ok(()))
                } else {
                    Next::Done(
                        Err(JSONParseError { at: end, reason: JSONParseErrorReason::ExpectedBracket }),
                    )
                }
            },
            State::InObject => Next::Done(
                Err(JSONParseError { at: end, reason: JSONParseErrorReason::ExpectedBracket }),
            ),
            State::TrueFalseNull { .. } => Next::Done(
                Err(JSONParseError { at: end, reason: JSONParseErrorReason::ExpectedTrueFalseNull }),
            ),
        }
    }

    /// Scans on to the next leaf value or to the end of the scan.
    pub(crate) fn next_event(&mut self) -> (r: Next<'a>)
        requires
            old(self).inv(),
            old(self).chars.remaining() == old(self).unread(),
        ensures
            final(self).on == old(self).on,
            match r {
                Next::Value(v) => {
                    &&& final(self).inv()
                    &&& final(self).chars.remaining() == final(self).unread()
                    &&& final(self).model@.events == old(self).model@.events.push(
                        Event { path: path_of(final(self).key_chain@), value: v@ },
                    )
                    &&& final(self).model@.events.is_prefix_of(scan_events(final(self).on@))
                    &&& final(self).work() < old(self).work()
                },
                Next::Done(res) => {
                    &&& old(self).model@.events == scan_events(old(self).on@)
                    &&& res == scan_result(old(self).on@)
                },
            },
    {
        let ghost s = self.on@;
        loop
            invariant
                self.inv(),
                self.chars.remaining() == self.unread(),
                self.on == old(self).on,
                s == self.on@,
                self.model@.events == old(self).model@.events,
                self.work() <= old(self).work(),
            decreases s.len() - self.ci@,
        {
            let ghost ci = self.ci@;
            let ghost m = self.model@;
            let chr = match self.held {
                Some(c) => {
                    self.held = None;
                    c
                },
                None => match self.chars.next() {
                    Some(c) => {
                        proof {
                            assert(s.skip(ci).len() > 0);
                            assert(s.skip(ci + 1) =~= s.skip(ci).drop_first());
                        }
                        c
                    },
                    None => {
                        proof {
                            assert(s.skip(ci).len() == 0);
                        }
                        let r = self.end_of_input();
                        proof {
                            if r is Value {
                                lemma_prefix_of_total(self.model@, s.skip(self.ci@));
                            }
                        }
                        return r;
                    },
                },
            };
            proof {
                lemma_char_at(s, ci);
                lemma_run_first(m, s.skip(ci));
                assert(s.skip(ci)[0] == chr);
                assert(s.skip(ci).drop_first() =~= s.skip(ci + 1));
            }
            let w = utf8_width(chr);
            let out = advance(
                self.on,
                self.idx,
                w,
                chr,
                &mut self.state,
                &mut self.key_chain,
                Ghost(m),
                Ghost(ci),
            );
            match out {
                Outcome::Continue => {
                    self.idx = self.idx + w;
                    self.model = Ghost(feed(m, chr));
                    self.ci = Ghost(ci + 1);
                },
                Outcome::Value(v) => {
                    self.idx = self.idx + w;
                    self.model = Ghost(feed(m, chr));
                    self.ci = Ghost(ci + 1);
                    proof {
                        lemma_prefix_of_total(self.model@, s.skip(ci + 1));
                    }
                    return Next::Value(v);
                },
                Outcome::Held(v) => {
                    self.held = Some(chr);
                    self.model = Ghost(settle(m));
                    proof {
                        assert(feed(settle(m), chr) == feed(m, chr));
                        lemma_run_first(settle(m), s.skip(ci));
                        lemma_prefix_of_total(self.model@, s.skip(ci));
                    }
                    return Next::Value(v);
                },
                Outcome::Stop(e) => {
                    proof {
                        lemma_run_failed(feed(m, chr), s.skip(ci + 1));
                    }
                    return Next::Done(Err(e));
                },
            }
        }
    }
}

} // verus!
