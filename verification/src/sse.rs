//! The push channel's framing: a server-sent-event stream arrives line by
//! line; `event:` and `data:` lines fill a pending event, a blank line
//! completes it.  Only `put` and `patch` events carry state, and the first
//! `put` after a (re)connection is the full snapshot and is dropped — acting
//! on it would replay the whole tree.  Reading the socket and decoding the
//! payload happen outside; this module owns the framing and the
//! first-snapshot filter, and the reversal of the channel's safe keys.

use vstd::prelude::*;

use crate::strutil::{has_prefix, spec_replace, spec_trim, str_replace_char, str_starts_with,
    str_trim};

verus! {

/// The framing state between lines: the pending event's type and data, and
/// whether the next `put` is still the snapshot.
pub struct SseFraming {
    pub event_type: String,
    pub data: String,
    pub first_put: bool,
}

/// What one line does to the framing state, and what it dispatches:
/// `(event_type, data, first_put, dispatch)` after the line.
pub open spec fn spec_sse_line(
    ev: Seq<char>,
    data: Seq<char>,
    first: bool,
    line: Seq<char>,
) -> (Seq<char>, Seq<char>, bool, Option<Seq<char>>) {
    if has_prefix(line, "event:"@) {
        (spec_trim(line.skip(6)), data, first, None)
    } else if has_prefix(line, "data:"@) {
        (ev, spec_trim(line.skip(5)), first, None)
    } else if line.len() == 0 && ev.len() > 0 {
        if ev == "put"@ || ev == "patch"@ {
            if first && ev == "put"@ {
                (Seq::<char>::empty(), Seq::<char>::empty(), false, None)
            } else {
                (Seq::<char>::empty(), Seq::<char>::empty(), first, Some(data))
            }
        } else {
            (Seq::<char>::empty(), Seq::<char>::empty(), first, None)
        }
    } else {
        (ev, data, first, None)
    }
}

impl SseFraming {
    /// A fresh connection: no pending event, the snapshot still to come.
    pub fn new() -> (r: SseFraming)
        ensures
            r.event_type@ == Seq::<char>::empty(),
            r.data@ == Seq::<char>::empty(),
            r.first_put == true,
    {
        SseFraming { event_type: String::new(), data: String::new(), first_put: true }
    }

    /// Feeds one line of the stream; returns the data of a completed `put`
    /// or `patch` event to decode and dispatch, with the first `put` of the
    /// connection swallowed.
    pub fn handle_line(&mut self, line: &str) -> (r: Option<String>)
        ensures
            ({
                let next = spec_sse_line(old(self).event_type@, old(self).data@, old(
                    self).first_put, line@);
                &&& final(self).event_type@ == next.0
                &&& final(self).data@ == next.1
                &&& final(self).first_put == next.2
                &&& (r is Some <==> next.3 is Some)
                &&& (r matches Some(d) ==> Some(d@) == next.3)
            }),
    {
        let llen = line.unicode_len();
        if str_starts_with(line, "event:") {
            proof {
                reveal_strlit("event:");
                assert(line@.len() >= 6);
            }
            let rest = line.substring_char(6, llen);
            proof {
                assert(rest@ =~= line@.skip(6));
            }
            self.event_type = str_trim(rest);
            return None;
        }
        if str_starts_with(line, "data:") {
            proof {
                reveal_strlit("data:");
                assert(line@.len() >= 5);
            }
            let rest = line.substring_char(5, llen);
            proof {
                assert(rest@ =~= line@.skip(5));
            }
            self.data = str_trim(rest);
            return None;
        }
        if llen == 0 && !self.event_type.as_str().is_empty() {
            let is_put = crate::strutil::str_eq(self.event_type.as_str(), "put");
            let is_patch = crate::strutil::str_eq(self.event_type.as_str(), "patch");
            if is_put || is_patch {
                if self.first_put && is_put {
                    self.first_put = false;
                    self.event_type = String::new();
                    self.data = String::new();
                    return None;
                }
                let payload = self.data.clone();
                self.event_type = String::new();
                self.data = String::new();
                return Some(payload);
            }
            self.event_type = String::new();
            self.data = String::new();
            return None;
        }
        None
    }
}

/// A safe key of the push channel turned back into a path: `_slash_`
/// becomes `/`, then `_dot_` becomes `.`.
pub open spec fn spec_decode_safe_key(s: Seq<char>) -> Seq<char> {
    spec_replace(spec_replace(s, "_slash_"@, '/'), "_dot_"@, '.')
}

/// Reverses the push channel's safe-key escaping.
pub fn decode_safe_key(s: &str) -> (r: String)
    ensures
        r@ == spec_decode_safe_key(s@),
{
    proof {
        reveal_strlit("_slash_");
        reveal_strlit("_dot_");
    }
    let step = str_replace_char(s, "_slash_", '/');
    str_replace_char(step.as_str(), "_dot_", '.')
}

/// Folds a whole stream of lines: the state after all of them, and the
/// dispatched payloads in order.
pub open spec fn spec_sse_run(
    ev: Seq<char>,
    data: Seq<char>,
    first: bool,
    lines: Seq<Seq<char>>,
) -> (Seq<char>, Seq<char>, bool, Seq<Seq<char>>)
    decreases lines.len(),
{
    if lines.len() == 0 {
        (ev, data, first, Seq::<Seq<char>>::empty())
    } else {
        let step = spec_sse_line(ev, data, first, lines[0]);
        let rest = spec_sse_run(step.0, step.1, step.2, lines.drop_first());
        (rest.0, rest.1, rest.2, (match step.3 {
            Some(d) => seq![d] + rest.3,
            None => rest.3,
        }))
    }
}

/// The first-snapshot filter: on a fresh connection, two complete `put`
/// events in a row dispatch only the second one.  The first full event is
/// swallowed whole, and the one after it comes through with its data.
pub proof fn lemma_first_snapshot_dropped(d1: Seq<char>, d2: Seq<char>)
    requires
        spec_trim(d1) == d1,
        spec_trim(d2) == d2,
    ensures
        ({
            let lines = seq!["event:put"@, "data:"@ + d1, Seq::<char>::empty(), "event:put"@,
                "data:"@ + d2, Seq::<char>::empty()];
            spec_sse_run(Seq::<char>::empty(), Seq::<char>::empty(), true, lines).3 == seq![d2]
        }),
{
    reveal_strlit("event:put");
    reveal_strlit("event:");
    reveal_strlit("data:");
    reveal_strlit("put");
    reveal_strlit("patch");
    let e = Seq::<char>::empty();
    let l1 = "event:put"@;
    let l2 = "data:"@ + d1;
    let l5 = "data:"@ + d2;
    let lines = seq![l1, l2, e, l1, l5, e];
    assert(has_prefix(l1, "event:"@)) by {
        assert(l1.subrange(0, 6) =~= "event:"@);
    }
    assert(l1.skip(6) =~= "put"@);
    assert(spec_trim("put"@) == "put"@) by {
        assert("put"@[0] == 'p');
        assert(!crate::strutil::is_ws('p'));
        assert(crate::strutil::spec_trim_start("put"@) == "put"@);
        assert("put"@.last() == 't');
        assert(!crate::strutil::is_ws('t'));
    }
    assert(!has_prefix(l2, "event:"@)) by {
        if has_prefix(l2, "event:"@) {
            assert(l2.subrange(0, 6)[0] == l2[0]);
            assert(l2[0] == 'd');
            assert("event:"@[0] == 'e');
        }
    }
    assert(!has_prefix(l5, "event:"@)) by {
        if has_prefix(l5, "event:"@) {
            assert(l5.subrange(0, 6)[0] == l5[0]);
            assert(l5[0] == 'd');
            assert("event:"@[0] == 'e');
        }
    }
    assert(has_prefix(l2, "data:"@)) by {
        assert(l2.subrange(0, 5) =~= "data:"@);
    }
    assert(has_prefix(l5, "data:"@)) by {
        assert(l5.subrange(0, 5) =~= "data:"@);
    }
    assert(l2.skip(5) =~= d1);
    assert(l5.skip(5) =~= d2);
    assert(!has_prefix(e, "event:"@));
    assert(!has_prefix(e, "data:"@));
    // step 1: the event line sets the type to `put`
    let s1 = spec_sse_line(e, e, true, l1);
    assert(s1 == ("put"@, e, true, None::<Seq<char>>));
    // step 2: the data line holds the snapshot
    let s2 = spec_sse_line(s1.0, s1.1, s1.2, l2);
    assert(s2 == ("put"@, d1, true, None::<Seq<char>>));
    // step 3: the blank line completes the first put, which is swallowed
    let s3 = spec_sse_line(s2.0, s2.1, s2.2, e);
    assert("put"@.len() > 0);
    assert(s3 == (e, e, false, None::<Seq<char>>));
    // steps 4 to 6: the second put comes through
    let s4 = spec_sse_line(s3.0, s3.1, s3.2, l1);
    assert(s4 == ("put"@, e, false, None::<Seq<char>>));
    let s5 = spec_sse_line(s4.0, s4.1, s4.2, l5);
    assert(s5 == ("put"@, d2, false, None::<Seq<char>>));
    let s6 = spec_sse_line(s5.0, s5.1, s5.2, e);
    assert(s6 == (e, e, false, Some(d2)));
    let t1 = lines.drop_first();
    let t2 = t1.drop_first();
    let t3 = t2.drop_first();
    let t4 = t3.drop_first();
    let t5 = t4.drop_first();
    let t6 = t5.drop_first();
    assert(t1 =~= seq![l2, e, l1, l5, e]);
    assert(t2 =~= seq![e, l1, l5, e]);
    assert(t3 =~= seq![l1, l5, e]);
    assert(t4 =~= seq![l5, e]);
    assert(t5 =~= seq![e]);
    assert(t6 =~= Seq::<Seq<char>>::empty());
    assert(spec_sse_run(s6.0, s6.1, s6.2, t6).3 =~= Seq::<Seq<char>>::empty());
    assert(spec_sse_run(s5.0, s5.1, s5.2, t5).3 =~= seq![d2]);
    assert(spec_sse_run(s4.0, s4.1, s4.2, t4).3 =~= seq![d2]);
    assert(spec_sse_run(s3.0, s3.1, s3.2, t3).3 =~= seq![d2]);
    assert(spec_sse_run(s2.0, s2.1, s2.2, t2).3 =~= seq![d2]);
    assert(spec_sse_run(s1.0, s1.1, s1.2, t1).3 =~= seq![d2]);
    assert(spec_sse_run(e, e, true, lines).3 =~= seq![d2]);
}

} // verus!
