//! What the scanner is proved to do, stated over whole inputs.
use vstd::prelude::*;
use crate::types::{PathKey, Leaf, Event, JSONParseError, JSONParseErrorReason};
use crate::model::{
    Mode, Scan, feed, run, start, finish, settle, scan_events, scan_result, lit_true, lit_false,
    lit_null, ends_number, is_ws, lemma_run_concat, lemma_run_first, width, top_is_index,
    top_is_slice, resume, pop,
};

verus! {

/// A JSON document as a tree. Strings, keys and numbers are raw source text.
pub enum Tree {
    Str(Seq<char>),
    Num(Seq<char>),
    True,
    False,
    Null,
    Object(Seq<Member>),
    Array(Seq<Tree>),
}

/// An object member.
pub struct Member {
    pub key: Seq<char>,
    pub value: Tree,
}

/// Whether a backslash escapes the character that follows `t`.
pub open spec fn escaped_after(t: Seq<char>) -> bool
    decreases t.len(),
{
    if t.len() == 0 {
        false
    } else {
        !escaped_after(t.drop_last()) && t.last() == '\\'
    }
}

/// String text that neither holds an unescaped quote nor ends in an
/// unfinished escape.
pub open spec fn well_escaped(t: Seq<char>) -> bool {
    &&& forall|i: int| 0 <= i < t.len() && t[i] == '"' ==> escaped_after(#[trigger] t.take(i))
    &&& !escaped_after(t)
}

/// Number text: it starts like a number and holds no character that ends one.
pub open spec fn number_text(t: Seq<char>) -> bool {
    &&& t.len() > 0
    &&& ('0' <= t[0] <= '9') || t[0] == '-'
    &&& forall|i: int| 0 <= i < t.len() ==> !ends_number(#[trigger] t[i])
}

/// Trees the scanner reads back: well-formed texts, and no empty array.
pub open spec fn valid(v: Tree) -> bool
    decreases v, 0nat,
{
    match v {
        Tree::Str(t) => well_escaped(t),
        Tree::Num(t) => number_text(t),
        Tree::True | Tree::False | Tree::Null => true,
        Tree::Object(ms) => valid_members(ms, 0),
        Tree::Array(vs) => vs.len() > 0 && valid_items(vs, 0),
    }
}

pub open spec fn valid_members(ms: Seq<Member>, i: nat) -> bool
    decreases ms, ms.len() - i,
{
    if i >= ms.len() {
        true
    } else {
        well_escaped(ms[i as int].key) && valid(ms[i as int].value) && valid_members(ms, i + 1)
    }
}

pub open spec fn valid_items(vs: Seq<Tree>, i: nat) -> bool
    decreases vs, vs.len() - i,
{
    if i >= vs.len() {
        true
    } else {
        valid(vs[i as int]) && valid_items(vs, i + 1)
    }
}

/// The compact text of a tree.
pub open spec fn render(v: Tree) -> Seq<char>
    decreases v, 0nat,
{
    match v {
        Tree::Str(t) => seq!['"'] + t + seq!['"'],
        Tree::Num(t) => t,
        Tree::True => lit_true(),
        Tree::False => lit_false(),
        Tree::Null => lit_null(),
        Tree::Object(ms) => seq!['{'] + render_members(ms, 0) + seq!['}'],
        Tree::Array(vs) => seq!['['] + render_items(vs, 0) + seq![']'],
    }
}

/// The members from position `i` on, separated by commas.
pub open spec fn render_members(ms: Seq<Member>, i: nat) -> Seq<char>
    decreases ms, ms.len() - i,
{
    if i >= ms.len() {
        seq![]
    } else {
        let m = ms[i as int];
        let here = seq!['"'] + m.key + seq!['"', ':'] + render(m.value);
        if i + 1 < ms.len() {
            here + seq![','] + render_members(ms, i + 1)
        } else {
            here
        }
    }
}

/// The elements from position `i` on, separated by commas.
pub open spec fn render_items(vs: Seq<Tree>, i: nat) -> Seq<char>
    decreases vs, vs.len() - i,
{
    if i >= vs.len() {
        seq![]
    } else if i + 1 < vs.len() {
        render(vs[i as int]) + seq![','] + render_items(vs, i + 1)
    } else {
        render(vs[i as int])
    }
}

/// The leaf values of a tree standing at `path`, each with its
/// root-to-leaf chain of keys and indices, in document order.
pub open spec fn leaves(v: Tree, path: Seq<PathKey>) -> Seq<Event>
    decreases v, 0nat,
{
    match v {
        Tree::Str(t) => seq![Event { path, value: Leaf::String(t) }],
        Tree::Num(t) => seq![Event { path, value: Leaf::Number(t) }],
        Tree::True => seq![Event { path, value: Leaf::True }],
        Tree::False => seq![Event { path, value: Leaf::False }],
        Tree::Null => seq![Event { path, value: Leaf::Null }],
        Tree::Object(ms) => leaves_members(ms, 0, path),
        Tree::Array(vs) => leaves_items(vs, 0, path),
    }
}

pub open spec fn leaves_members(ms: Seq<Member>, i: nat, path: Seq<PathKey>) -> Seq<Event>
    decreases ms, ms.len() - i,
{
    if i >= ms.len() {
        seq![]
    } else {
        leaves(ms[i as int].value, path.push(PathKey::Slice(ms[i as int].key))) + leaves_members(
            ms,
            i + 1,
            path,
        )
    }
}

pub open spec fn leaves_items(vs: Seq<Tree>, i: nat, path: Seq<PathKey>) -> Seq<Event>
    decreases vs, vs.len() - i,
{
    if i >= vs.len() {
        seq![]
    } else {
        leaves(vs[i as int], path.push(PathKey::Index(i))) + leaves_items(vs, i + 1, path)
    }
}

proof fn lemma_run_one(sc: Scan, c: char)
    ensures
        run(sc, seq![c]) == feed(sc, c),
{
    assert(seq![c].drop_last() =~= Seq::<char>::empty());
    assert(run(sc, Seq::<char>::empty()) == sc);
    assert(run(sc, seq![c]) == feed(run(sc, seq![c].drop_last()), seq![c].last()));
}

proof fn lemma_run_push(sc: Scan, s: Seq<char>, c: char)
    ensures
        run(sc, s.push(c)) == feed(run(sc, s), c),
{
    assert(s.push(c).drop_last() =~= s);
}

/// After a complete value, a separator or closer meets the same scan
/// whether or not a number in progress has been reported yet.
proof fn lemma_feed_settled(r: Scan, d: char)
    requires
        r.failed is None,
        r.mode is EndOfValue || r.mode is NumberValue,
        ends_number(d),
    ensures
        feed(r, d) == feed(settle(r), d),
        settle(r).mode is EndOfValue,
        settle(r).path == r.path,
        settle(r).failed is None,
{
}

proof fn lemma_body(cfg: Scan, t: Seq<char>, key: bool)
    requires
        cfg.failed is None,
        cfg.mode == (if key {
            Mode::InKey { escaped: false, text: seq![] }
        } else {
            Mode::StringValue { escaped: false, text: seq![] }
        }),
        forall|i: int| 0 <= i < t.len() && t[i] == '"' ==> escaped_after(#[trigger] t.take(i)),
    ensures
        ({
            let r = run(cfg, t);
            &&& r.failed is None
            &&& r.path == cfg.path
            &&& r.events == cfg.events
            &&& r.mode == (if key {
                Mode::InKey { escaped: escaped_after(t), text: t }
            } else {
                Mode::StringValue { escaped: escaped_after(t), text: t }
            })
        }),
    decreases t.len(),
{
    if t.len() == 0 {
        assert(t =~= seq![]);
    } else {
        let u = t.drop_last();
        assert forall|i: int| 0 <= i < u.len() && u[i] == '"' implies escaped_after(#[trigger] u.take(i)) by {
            assert(u.take(i) =~= t.take(i));
            assert(u[i] == t[i]);
        }
        lemma_body(cfg, u, key);
        assert(t.take(u.len() as int) =~= u);
        assert(u.push(t.last()) =~= t);
    }
}

proof fn lemma_number_body(cfg: Scan, t: Seq<char>)
    requires
        cfg.failed is None,
        cfg.mode is ExpectingValue,
        t.len() > 0,
        ('0' <= t[0] <= '9') || t[0] == '-',
        forall|i: int| 0 <= i < t.len() ==> !ends_number(#[trigger] t[i]),
    ensures
        ({
            let r = run(cfg, t);
            &&& r.failed is None
            &&& r.path == cfg.path
            &&& r.events == cfg.events
            &&& r.mode == Mode::NumberValue { text: t }
        }),
    decreases t.len(),
{
    if t.len() == 1 {
        assert(t =~= seq![t[0]]);
        lemma_run_one(cfg, t[0]);
    } else {
        let u = t.drop_last();
        assert forall|i: int| 0 <= i < u.len() implies !ends_number(#[trigger] u[i]) by {
            assert(u[i] == t[i]);
        }
        lemma_number_body(cfg, u);
        assert(!ends_number(t[t.len() - 1]));
        assert(u.push(t.last()) =~= t);
    }
}

/// One character of a literal after the first: the window grows.
proof fn lemma_window_grows(x: Scan, t: Seq<char>, c: char)
    requires
        x.failed is None,
        x.mode == (Mode::TrueFalseNull { text: t }),
        t.len() < 3,
    ensures
        feed(x, c).mode == (Mode::TrueFalseNull { text: t.push(c) }),
        feed(x, c).failed is None,
        feed(x, c).path == x.path,
        feed(x, c).events == x.events,
{
}

proof fn lemma_literal(cfg: Scan, v: Tree)
    requires
        cfg.failed is None,
        cfg.mode is ExpectingValue,
        v is True || v is False || v is Null,
    ensures
        ({
            let r = run(cfg, render(v));
            &&& r.failed is None
            &&& r.path == cfg.path
            &&& r.mode is EndOfValue
            &&& r.events == cfg.events + leaves(v, cfg.path)
        }),
{
    let w = render(v);
    let e = leaves(v, cfg.path)[0];
    assert(leaves(v, cfg.path) =~= seq![e]);
    let x1 = feed(cfg, w[0]);
    assert(x1.mode == Mode::TrueFalseNull { text: seq![w[0]] });
    let x2 = feed(x1, w[1]);
    lemma_window_grows(x1, seq![w[0]], w[1]);
    let x3 = feed(x2, w[2]);
    lemma_window_grows(x2, seq![w[0]].push(w[1]), w[2]);
    let t3 = seq![w[0]].push(w[1]).push(w[2]);
    let t4 = t3.push(w[3]);
    let x4 = feed(x3, w[3]);
    lemma_run_one(cfg, w[0]);
    lemma_run_push(cfg, seq![w[0]], w[1]);
    lemma_run_push(cfg, seq![w[0], w[1]], w[2]);
    lemma_run_push(cfg, seq![w[0], w[1], w[2]], w[3]);
    assert(seq![w[0]].push(w[1]) =~= seq![w[0], w[1]]);
    assert(seq![w[0], w[1]].push(w[2]) =~= seq![w[0], w[1], w[2]]);
    assert(seq![w[0], w[1], w[2]].push(w[3]) =~= w.take(4));
    if v is True {
        assert(t4 =~= lit_true());
        assert(w.take(4) =~= w);
        assert(x4.events =~= cfg.events + leaves(v, cfg.path));
    } else if v is Null {
        assert(t4 =~= lit_null());
        assert(t4[0] != lit_true()[0]);
        assert(w.take(4) =~= w);
        assert(x4.events =~= cfg.events + leaves(v, cfg.path));
    } else {
        assert(t4 =~= lit_false().take(4));
        assert(t4[0] != lit_true()[0]);
        assert(t4[0] != lit_null()[0]);
        assert(x4.mode == Mode::TrueFalseNull { text: t4 });
        let x5 = feed(x4, w[4]);
        lemma_run_push(cfg, w.take(4), w[4]);
        assert(w.take(4).push(w[4]) =~= w);
        assert(t4.push(w[4]) =~= lit_false());
        assert(x5.events =~= cfg.events + leaves(v, cfg.path));
    }
}

proof fn lemma_value(v: Tree, cfg: Scan)
    requires
        valid(v),
        cfg.failed is None,
        cfg.mode is ExpectingValue,
    ensures
        ({
            let r = run(cfg, render(v));
            &&& r.failed is None
            &&& r.path == cfg.path
            &&& r.mode is EndOfValue || r.mode is NumberValue
            &&& settle(r).events == cfg.events + leaves(v, cfg.path)
        }),
    decreases v, 0nat,
{
    let p = cfg.path;
    match v {
        Tree::Str(t) => {
            let x1 = feed(cfg, '"');
            lemma_run_one(cfg, '"');
            lemma_body(x1, t, false);
            let x2 = run(x1, t);
            lemma_run_one(x2, '"');
            lemma_run_concat(cfg, seq!['"'], t);
            lemma_run_concat(cfg, seq!['"'] + t, seq!['"']);
            assert(run(cfg, render(v)).events =~= cfg.events + leaves(v, p));
        },
        Tree::Num(t) => {
            lemma_number_body(cfg, t);
            assert(settle(run(cfg, render(v))).events =~= cfg.events + leaves(v, p));
        },
        Tree::True | Tree::False | Tree::Null => {
            lemma_literal(cfg, v);
        },
        Tree::Object(ms) => {
            let x1 = feed(cfg, '{');
            lemma_run_one(cfg, '{');
            lemma_members(ms, 0, x1, p);
            lemma_run_concat(cfg, seq!['{'], render_members(ms, 0) + seq!['}']);
            assert(render(v) =~= seq!['{'] + (render_members(ms, 0) + seq!['}']));
        },
        Tree::Array(vs) => {
            let x1 = feed(cfg, '[');
            lemma_run_one(cfg, '[');
            assert(x1.path == p.push(PathKey::Index(0)));
            lemma_items(vs, 0, x1, p);
            lemma_run_concat(cfg, seq!['['], render_items(vs, 0) + seq![']']);
            assert(render(v) =~= seq!['['] + (render_items(vs, 0) + seq![']']));
        },
    }
}

proof fn lemma_members(ms: Seq<Member>, i: nat, cfg: Scan, p: Seq<PathKey>)
    requires
        valid_members(ms, i),
        cfg.failed is None,
        cfg.mode is InObject,
        cfg.path == p,
    ensures
        ({
            let r = run(cfg, render_members(ms, i) + seq!['}']);
            &&& r.failed is None
            &&& r.mode is EndOfValue
            &&& r.path == p
            &&& r.events == cfg.events + leaves_members(ms, i, p)
        }),
    decreases ms, ms.len() - i,
{
    if i >= ms.len() {
        assert(render_members(ms, i) + seq!['}'] =~= seq!['}']);
        lemma_run_one(cfg, '}');
        assert(cfg.events + leaves_members(ms, i, p) =~= cfg.events);
    } else {
        let m = ms[i as int];
        let key = m.key;
        let x1 = feed(cfg, '"');
        lemma_run_one(cfg, '"');
        lemma_body(x1, key, true);
        let x2 = run(x1, key);
        let x3 = feed(x2, '"');
        lemma_run_one(x2, '"');
        let q = p.push(PathKey::Slice(key));
        assert(x3.path == q);
        let x4 = feed(x3, ':');
        lemma_run_one(x3, ':');
        lemma_value(m.value, x4);
        let x5 = run(x4, render(m.value));
        let a1 = seq!['"'];
        let a2 = a1 + key;
        let a3 = a2 + seq!['"'];
        let a4 = a3 + seq![':'];
        let a5 = a4 + render(m.value);
        lemma_run_concat(cfg, a1, key);
        lemma_run_concat(cfg, a2, seq!['"']);
        lemma_run_concat(cfg, a3, seq![':']);
        lemma_run_concat(cfg, a4, render(m.value));
        assert(run(cfg, a5) == x5);
        assert(seq!['"'] + m.key + seq!['"', ':'] + render(m.value) =~= a5);
        let sx = settle(x5);
        lemma_feed_settled(x5, if i + 1 < ms.len() { ',' } else { '}' });
        assert(sx.path.last() == PathKey::Slice(key));
        assert(sx.path.drop_last() =~= p);
        if i + 1 < ms.len() {
            let x6 = feed(x5, ',');
            lemma_run_one(x5, ',');
            let rest = render_members(ms, i + 1) + seq!['}'];
            lemma_members(ms, i + 1, x6, p);
            lemma_run_concat(cfg, a5, seq![',']);
            lemma_run_concat(cfg, a5 + seq![','], rest);
            assert(render_members(ms, i) + seq!['}'] =~= a5 + seq![','] + rest);
            assert(cfg.events + leaves_members(ms, i, p) =~= cfg.events + leaves(m.value, q)
                + leaves_members(ms, i + 1, p));
        } else {
            lemma_run_one(x5, '}');
            lemma_run_concat(cfg, a5, seq!['}']);
            assert(render_members(ms, i) + seq!['}'] =~= a5 + seq!['}']);
            assert(leaves_members(ms, i + 1, p) =~= Seq::<Event>::empty());
            assert(cfg.events + leaves_members(ms, i, p) =~= cfg.events + leaves(m.value, q));
        }
    }
}

proof fn lemma_items(vs: Seq<Tree>, i: nat, cfg: Scan, p: Seq<PathKey>)
    requires
        valid_items(vs, i),
        i < vs.len(),
        cfg.failed is None,
        cfg.mode is ExpectingValue,
        cfg.path == p.push(PathKey::Index(i)),
    ensures
        ({
            let r = run(cfg, render_items(vs, i) + seq![']']);
            &&& r.failed is None
            &&& r.mode is EndOfValue
            &&& r.path == p
            &&& r.events == cfg.events + leaves_items(vs, i, p)
        }),
    decreases vs, vs.len() - i,
{
    let v = vs[i as int];
    let q = cfg.path;
    lemma_value(v, cfg);
    let x1 = run(cfg, render(v));
    lemma_feed_settled(x1, if i + 1 < vs.len() { ',' } else { ']' });
    let sx = settle(x1);
    assert(sx.path.last() == PathKey::Index(i));
    assert(sx.path.drop_last() =~= p);
    if i + 1 < vs.len() {
        let x2 = feed(x1, ',');
        lemma_run_one(x1, ',');
        assert(x2.path =~= p.push(PathKey::Index(i + 1)));
        lemma_items(vs, i + 1, x2, p);
        let rest = render_items(vs, i + 1) + seq![']'];
        lemma_run_concat(cfg, render(v), seq![',']);
        lemma_run_concat(cfg, render(v) + seq![','], rest);
        assert(render_items(vs, i) + seq![']'] =~= render(v) + seq![','] + rest);
        assert(cfg.events + leaves_items(vs, i, p) =~= cfg.events + leaves(v, q) + leaves_items(
            vs,
            i + 1,
            p,
        ));
    } else {
        lemma_run_one(x1, ']');
        lemma_run_concat(cfg, render(v), seq![']']);
        assert(leaves_items(vs, i + 1, p) =~= Seq::<Event>::empty());
        assert(cfg.events + leaves_items(vs, i, p) =~= cfg.events + leaves(v, q));
    }
}

/// For every document whose strings and numbers are well formed and whose
/// arrays are not empty, the scan succeeds and reports exactly the leaves
/// of the tree, in document order, each with the chain of object keys and
/// zero-based array indices that leads to it from the root.
pub proof fn law_paths_follow_nesting(v: Tree)
    requires
        valid(v),
    ensures
        scan_events(render(v)) == leaves(v, seq![]),
        scan_result(render(v)) == Ok::<(), JSONParseError>(()),
{
    lemma_value(v, start());
    let r = run(start(), render(v));
    assert(start().events + leaves(v, seq![]) =~= leaves(v, seq![]));
    assert(start().path =~= Seq::<PathKey>::empty());
}

/// Scanning depends on the characters of the input alone: scanning the same
/// text twice reports the same values, in the same order, and ends the same way.
pub proof fn law_rescanning_is_deterministic(a: &str, b: &str)
    requires
        a@ == b@,
    ensures
        scan_events(a@) == scan_events(b@),
        scan_result(a@) == scan_result(b@),
{
}

/// An input that ends inside a number still reports that number, last and
/// at its path; only then does the scan end, with `ExpectedBracket` at the
/// end of the input if an object or array is still open.
pub proof fn law_trailing_number_is_reported(s: Seq<char>)
    requires
        run(start(), s).failed is None,
        run(start(), s).mode is NumberValue,
    ensures
        ({
            let x = run(start(), s);
            &&& scan_events(s) == x.events.push(
                Event { path: x.path, value: Leaf::Number(crate::model::text_of(x.mode)) },
            )
            &&& scan_result(s) == if x.path.len() == 0 {
                Ok::<(), JSONParseError>(())
            } else {
                Err(JSONParseError { at: x.at as usize, reason: JSONParseErrorReason::ExpectedBracket })
            }
        }),
{
}

/// The mode `m` with its comment start moved `d` bytes on.
pub open spec fn shift_mode(m: Mode, d: nat) -> Mode {
    match m {
        Mode::Comment { start, multiline, last_was_asterisk, hash } => Mode::Comment {
            start: start + d,
            multiline,
            last_was_asterisk,
            hash,
        },
        _ => m,
    }
}

/// `a` is `b` with every byte offset `d` bytes further on.
pub open spec fn shifted(a: Scan, b: Scan, d: nat) -> bool {
    &&& a.mode == shift_mode(b.mode, d)
    &&& a.path == b.path
    &&& a.events == b.events
    &&& a.at == b.at + d
    &&& a.failed is None <==> b.failed is None
    &&& a.failed is Some ==> a.failed->0.reason == b.failed->0.reason
}

proof fn lemma_feed_shifted(a: Scan, b: Scan, d: nat, c: char)
    requires
        shifted(a, b, d),
    ensures
        shifted(feed(a, c), feed(b, c), d),
{
    match b.mode {
        Mode::InKey { .. } => {},
        Mode::Colon => {},
        Mode::InObject => {},
        Mode::Comment { .. } => {},
        Mode::ExpectingValue => {},
        Mode::StringValue { .. } => {},
        Mode::NumberValue { .. } => {},
        Mode::TrueFalseNull { .. } => {},
        Mode::EndOfValue => {},
    }
}

proof fn lemma_run_shifted(a: Scan, b: Scan, d: nat, s: Seq<char>)
    requires
        shifted(a, b, d),
    ensures
        shifted(run(a, s), run(b, s), d),
    decreases s.len(),
{
    if s.len() > 0 {
        lemma_run_shifted(a, b, d, s.drop_last());
        lemma_feed_shifted(run(a, s.drop_last()), run(b, s.drop_last()), d, s.last());
    }
}

proof fn lemma_finish_shifted(a: Scan, b: Scan, d: nat)
    requires
        shifted(a, b, d),
    ensures
        finish(a).0 == finish(b).0,
        finish(a).1 is Ok <==> finish(b).1 is Ok,
        finish(a).1 is Err ==> finish(a).1->Err_0.reason == finish(b).1->Err_0.reason,
{
    match b.mode {
        Mode::Comment { .. } => {},
        _ => {},
    }
}

/// A line comment: `#`, or `/` not followed by `*`; text without a line
/// break; a line break.
pub open spec fn line_comment(c: Seq<char>) -> bool {
    &&& c.len() >= 2
    &&& c[0] == '#' || (c[0] == '/' && c[1] != '*')
    &&& c.last() == '\n'
    &&& forall|i: int| 0 <= i < c.len() - 1 ==> #[trigger] c[i] != '\n'
}

/// A block comment: `/*`, text in which no `*` is directly followed by
/// `/`, then `*/`.
pub open spec fn block_comment(c: Seq<char>) -> bool {
    &&& c.len() >= 4
    &&& c[0] == '/' && c[1] == '*'
    &&& c[c.len() - 2] == '*' && c.last() == '/'
    &&& forall|i: int| 2 <= i < c.len() - 2 ==> !(#[trigger] c[i] == '*' && c[i + 1] == '/')
}

/// `q` goes on, after white space, with a comma or a closing brace.
pub open spec fn closes_member(q: Seq<char>) -> bool {
    exists|k: int|
        0 <= k < q.len() && (q[k] == ',' || q[k] == '}') && forall|j: int|
            0 <= j < k ==> is_ws(#[trigger] q[j])
}

proof fn lemma_width_positive(c: char)
    ensures
        width(c) >= 1,
{
}

proof fn lemma_line_body(y: Scan, body: Seq<char>, s0: nat, hash: bool)
    requires
        y.failed is None,
        y.mode == (Mode::Comment { start: s0, multiline: false, last_was_asterisk: false, hash }),
        y.at >= s0 + 1,
        forall|i: int| 0 <= i < body.len() ==> #[trigger] body[i] != '\n',
        y.at == s0 + 1 && !hash && body.len() > 0 ==> body[0] != '*',
    ensures
        ({
            let r = run(y, body);
            &&& r.failed is None
            &&& r.mode == y.mode
            &&& r.path == y.path
            &&& r.events == y.events
            &&& r.at >= y.at + body.len()
        }),
    decreases body.len(),
{
    if body.len() > 0 {
        let u = body.drop_last();
        assert forall|i: int| 0 <= i < u.len() implies #[trigger] u[i] != '\n' by {
            assert(u[i] == body[i]);
        }
        lemma_line_body(y, u, s0, hash);
        assert(body.last() != '\n');
        lemma_width_positive(body.last());
        if u.len() == 0 {
            assert(body.last() == body[0]);
        }
    }
}

proof fn lemma_block_body(y: Scan, body: Seq<char>, s0: nat)
    requires
        y.failed is None,
        y.mode == (Mode::Comment { start: s0, multiline: true, last_was_asterisk: false, hash: false }),
        y.at >= s0 + 2,
        forall|i: int| 0 < i < body.len() ==> !(body[i - 1] == '*' && #[trigger] body[i] == '/'),
    ensures
        ({
            let r = run(y, body);
            &&& r.failed is None
            &&& r.mode == (Mode::Comment {
                start: s0,
                multiline: true,
                last_was_asterisk: body.len() > 0 && body.last() == '*',
                hash: false,
            })
            &&& r.path == y.path
            &&& r.events == y.events
            &&& r.at >= y.at
        }),
    decreases body.len(),
{
    if body.len() > 0 {
        let u = body.drop_last();
        assert forall|i: int| 0 < i < u.len() implies !(u[i - 1] == '*' && #[trigger] u[i] == '/') by {
            assert(u[i] == body[i]);
            assert(u[i - 1] == body[i - 1]);
        }
        lemma_block_body(y, u, s0);
        if u.len() > 0 {
            assert(u.last() == body[body.len() - 2]);
            assert(!(body[body.len() - 2] == '*' && body[body.len() - 1] == '/'));
        }
        lemma_width_positive(body.last());
    }
}

/// A comment that starts at the scan `x` ends with the scan resumed at the
/// path that the opener left.
proof fn lemma_comment(x: Scan, c: Seq<char>)
    requires
        line_comment(c) || block_comment(c),
        x.failed is None,
        x.mode is ExpectingValue || x.mode is EndOfValue,
    ensures
        ({
            let opened = if x.mode is EndOfValue {
                pop(x.path)
            } else {
                x.path
            };
            let r = run(x, c);
            &&& r.failed is None
            &&& r.path == opened
            &&& r.mode == resume(opened)
            &&& r.events == x.events
            &&& r.at >= x.at
        }),
{
    let opened = if x.mode is EndOfValue {
        pop(x.path)
    } else {
        x.path
    };
    let hash = c[0] == '#';
    let s0 = x.at;
    let y = feed(x, c[0]);
    assert(width(c[0]) == 1);
    assert(y.mode == (Mode::Comment { start: s0, multiline: false, last_was_asterisk: false, hash }));
    assert(y.path == opened);
    lemma_run_first(x, c);
    let t = c.drop_first();
    if line_comment(c) {
        let body = t.drop_last();
        assert forall|i: int| 0 <= i < body.len() implies #[trigger] body[i] != '\n' by {
            assert(body[i] == c[i + 1]);
        }
        if !hash && body.len() > 0 {
            assert(body[0] == c[1]);
        }
        lemma_line_body(y, body, s0, hash);
        assert(body.push(t.last()) =~= t);
        lemma_run_push(y, body, t.last());
        assert(t.last() == '\n');
    } else {
        let z = feed(y, '*');
        assert(t[0] == '*');
        lemma_run_first(y, t);
        assert(z.mode == (Mode::Comment { start: s0, multiline: true, last_was_asterisk: false, hash: false }));
        let t2 = t.drop_first();
        let body = t2.subrange(0, t2.len() - 2);
        assert forall|i: int| 0 < i < body.len() implies !(body[i - 1] == '*' && #[trigger] body[i] == '/') by {
            assert(body[i] == c[i + 2]);
            assert(body[i - 1] == c[i + 1]);
        }
        lemma_width_positive('*');
        lemma_block_body(z, body, s0);
        let zb = run(z, body);
        assert(t2 =~= body.push('*').push('/'));
        lemma_run_push(z, body, '*');
        lemma_run_push(z, body.push('*'), '/');
    }
}

/// The scan after white space: only the offset moves.
proof fn lemma_ws(z: Scan, w: Seq<char>)
    requires
        z.failed is None,
        z.mode is InObject || z.mode is EndOfValue,
        forall|j: int| 0 <= j < w.len() ==> is_ws(#[trigger] w[j]),
    ensures
        run(z, w) == (Scan { at: run(z, w).at, ..z }),
        run(z, w).at == z.at + ws_bytes(w),
    decreases w.len(),
{
    if w.len() > 0 {
        let u = w.drop_last();
        assert forall|j: int| 0 <= j < u.len() implies is_ws(#[trigger] u[j]) by {
            assert(u[j] == w[j]);
        }
        lemma_ws(z, u);
        assert(is_ws(w[w.len() - 1]));
    }
}

/// The bytes of `w`, one character after another.
pub open spec fn ws_bytes(w: Seq<char>) -> nat
    decreases w.len(),
{
    if w.len() == 0 {
        0
    } else {
        ws_bytes(w.drop_last()) + width(w.last())
    }
}

/// Taking out a comment that follows a complete object member (before a
/// comma or closing brace, in an object that is not an array element) or
/// that stands where an array element is expected does not change what
/// the scan reports: the same values, in the same order, and the same
/// outcome, an error keeping its reason.
pub proof fn law_comment_is_transparent(p: Seq<char>, c: Seq<char>, q: Seq<char>)
    requires
        line_comment(c) || block_comment(c),
        run(start(), p).failed is None,
        ({
            let x = run(start(), p);
            ||| x.mode is ExpectingValue && top_is_index(x.path)
            ||| x.mode is EndOfValue && top_is_slice(x.path) && !top_is_index(x.path.drop_last())
                && closes_member(q)
        }),
    ensures
        scan_events(p + c + q) == scan_events(p + q),
        scan_result(p + c + q) is Ok <==> scan_result(p + q) is Ok,
        scan_result(p + c + q) is Err ==> scan_result(p + c + q)->Err_0.reason == scan_result(
            p + q,
        )->Err_0.reason,
{
    let x = run(start(), p);
    lemma_run_concat(start(), p + c, q);
    lemma_run_concat(start(), p, c);
    lemma_run_concat(start(), p, q);
    lemma_comment(x, c);
    let y = run(x, c);
    let d = (y.at - x.at) as nat;
    if x.mode is ExpectingValue {
        assert(shifted(y, x, d));
        lemma_run_shifted(y, x, d, q);
        lemma_finish_shifted(run(y, q), run(x, q), d);
    } else {
        let k = choose|k: int|
            0 <= k < q.len() && (q[k] == ',' || q[k] == '}') && forall|j: int|
                0 <= j < k ==> is_ws(#[trigger] q[j]);
        let w = q.take(k);
        let rest = q.skip(k + 1);
        assert forall|j: int| 0 <= j < w.len() implies is_ws(#[trigger] w[j]) by {
            assert(w[j] == q[j]);
        }
        assert(q =~= w.push(q[k]) + rest);
        lemma_run_concat(y, w.push(q[k]), rest);
        lemma_run_concat(x, w.push(q[k]), rest);
        lemma_run_push(y, w, q[k]);
        lemma_run_push(x, w, q[k]);
        lemma_ws(y, w);
        lemma_ws(x, w);
        let ya = feed(run(y, w), q[k]);
        let xa = feed(run(x, w), q[k]);
        assert(x.path.drop_last() == pop(x.path));
        assert(shifted(ya, xa, d));
        lemma_run_shifted(ya, xa, d, rest);
        lemma_finish_shifted(run(ya, rest), run(xa, rest), d);
    }
}

} // verus!
