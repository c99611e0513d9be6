//! The two entry points: scan a text and hand each leaf value to a callback.
use vstd::prelude::*;
use vstd::std_specs::iter::IteratorSpec;
use crate::types::{JSONKey, RootJSONValue, JSONParseError, Event, path_of};
use crate::model::{scan_events, scan_result};
use crate::scanner::{Scanner, Next};

verus! {

/// `cb` may answer `b` when handed the value and path of `e`.
pub open spec fn answered<'a, F: FnMut(&[JSONKey<'a>], RootJSONValue<'a>) -> bool>(
    cb: F,
    e: Event,
    b: bool,
) -> bool {
    exists|p: &[JSONKey<'a>], v: RootJSONValue<'a>|
        path_of(p@) == e.path && v@ == e.value && #[trigger] call_ensures(cb, (p, v), b)
}

/// `cb` may return when handed the value and path of `e`.
pub open spec fn handed<'a, F: FnMut(&[JSONKey<'a>], RootJSONValue<'a>)>(cb: F, e: Event) -> bool {
    exists|p: &[JSONKey<'a>], v: RootJSONValue<'a>|
        path_of(p@) == e.path && v@ == e.value && #[trigger] call_ensures(cb, (p, v), ())
}

/// Scans `on` and hands every leaf value, with its path, to `cb`, in
/// order. If you want to return early (not parse the whole input) use
/// [`parse_with_exit_signal`].
///
/// The values handed over are `scan_events(on@)` and the result is
/// `scan_result(on@)`. The path is borrowed for the duration of one call
/// only: `cb` copies whatever it keeps.
///
/// # Errors
/// Returns an error if it tries to parse invalid JSON input
#[verifier::loop_isolation(false)]
pub fn parse<'a, F>(on: &'a str, mut cb: F) -> (r: Result<(), JSONParseError>) where
    F: FnMut(&[JSONKey<'a>], RootJSONValue<'a>),

    requires
        forall|p: &[JSONKey<'a>], v: RootJSONValue<'a>| call_requires(cb, (p, v)),
    ensures
        r == scan_result(on@),
        forall|i: int| 0 <= i < scan_events(on@).len() ==> handed(cb, #[trigger] scan_events(on@)[i]),
{
    let ghost cb0 = cb;
    let mut sc = Scanner::new(on);
    loop
        invariant
            cb == cb0,
            sc.inv(),
            sc.chars.remaining() == sc.unread(),
            sc.on == on,
            forall|p: &[JSONKey<'a>], v: RootJSONValue<'a>| call_requires(cb, (p, v)),
            forall|i: int| 0 <= i < sc.model@.events.len() ==> handed(cb, #[trigger] sc.model@.events[i]),
        decreases sc.work(),
    {
        let ghost before = sc.model@.events;
        match sc.next_event() {
            Next::Value(v) => {
                let ghost value = v;
                let path = sc.key_chain.as_slice();
                cb(path, v);
                proof {
                    let evs = sc.model@.events;
                    assert(call_ensures(cb, (path, value), ()));
                    assert(handed(cb, evs[evs.len() - 1]));
                    assert forall|i: int| 0 <= i < evs.len() implies handed(cb, #[trigger] evs[i]) by {
                        if i < evs.len() - 1 {
                            assert(evs[i] == before[i]);
                        }
                    }
                }
            },
            Next::Done(res) => {
                proof {
                    assert forall|i: int| 0 <= i < scan_events(on@).len() implies handed(cb, #[trigger] scan_events(on@)[i]) by {
                        assert(before[i] == scan_events(on@)[i]);
                    }
                }
                return res;
            },
        }
    }
}

/// Scans `on` and hands every leaf value, with its path, to `cb`, in
/// order, until `cb` returns `true`: the scan then stops and succeeds.
///
/// Either `cb` answered `false` to every value of `scan_events(on@)` and
/// the result is `scan_result(on@)`, or it answered `false` to the first
/// `n` of them and `true` to the next, and the result is `Ok(())`.
///
/// # Errors
/// Returns an error if it tries to parse invalid JSON input
#[verifier::loop_isolation(false)]
pub fn parse_with_exit_signal<'a, F>(on: &'a str, mut cb: F) -> (r: Result<(), JSONParseError>) where
    F: FnMut(&[JSONKey<'a>], RootJSONValue<'a>) -> bool,

    requires
        forall|p: &[JSONKey<'a>], v: RootJSONValue<'a>| call_requires(cb, (p, v)),
    ensures
        ({
            let evs = scan_events(on@);
            ||| r == scan_result(on@) && forall|i: int|
                0 <= i < evs.len() ==> answered(cb, #[trigger] evs[i], false)
            ||| exists|n: int|
                0 <= n < evs.len() && r is Ok && #[trigger] answered(cb, evs[n], true) && forall|i: int|
                    0 <= i < n ==> answered(cb, #[trigger] evs[i], false)
        }),
{
    let ghost cb0 = cb;
    let mut sc = Scanner::new(on);
    loop
        invariant
            cb == cb0,
            sc.inv(),
            sc.chars.remaining() == sc.unread(),
            sc.on == on,
            forall|p: &[JSONKey<'a>], v: RootJSONValue<'a>| call_requires(cb, (p, v)),
            sc.model@.events.is_prefix_of(scan_events(on@)),
            forall|i: int| 0 <= i < sc.model@.events.len() ==> answered(cb, #[trigger] sc.model@.events[i], false),
        decreases sc.work(),
    {
        let ghost before = sc.model@.events;
        match sc.next_event() {
            Next::Value(v) => {
                let ghost value = v;
                let path = sc.key_chain.as_slice();
                let stop = cb(path, v);
                proof {
                    let evs = sc.model@.events;
                    let all = scan_events(on@);
                    let n = evs.len() - 1;
                    assert(call_ensures(cb, (path, value), stop));
                    assert(answered(cb, evs[n], stop));
                    assert forall|i: int| 0 <= i < evs.len() implies evs[i] == all[i] by {
                        assert(evs[i] == all.subrange(0, evs.len() as int)[i]);
                    }
                    assert forall|i: int| 0 <= i < n implies answered(cb, #[trigger] evs[i], false) by {
                        assert(evs[i] == before[i]);
                    }
                    if stop {
                        assert(answered(cb, all[n], true));
                        assert forall|i: int| 0 <= i < n implies answered(cb, #[trigger] all[i], false) by {
                            assert(evs[i] == all[i]);
                        }
                    }
                }
                if stop {
                    return Ok(());
                }
            },
            Next::Done(res) => {
                proof {
                    assert forall|i: int| 0 <= i < scan_events(on@).len() implies answered(cb, #[trigger] scan_events(on@)[i], false) by {
                        assert(before[i] == scan_events(on@)[i]);
                    }
                }
                return res;
            },
        }
    }
}

} // verus!
