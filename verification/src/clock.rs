//! Logical clock timestamps.
use vstd::prelude::*;

verus! {

/// A logical timestamp: a session id and a time within that session.
#[derive(Clone, Copy, Debug, PartialEq, Eq, Structural)]
pub struct Ts {
    pub sid: u64,
    pub time: u64,
}

/// A span of consecutive timestamps `time .. time + span` of one session.
#[derive(Clone, Copy, Debug, PartialEq, Eq, Structural)]
pub struct Tss {
    pub sid: u64,
    pub time: u64,
    pub span: u64,
}

impl Ts {
    pub fn new(sid: u64, time: u64) -> (r: Ts)
        ensures
            r == (Ts { sid, time }),
    {
        Ts { sid, time }
    }
}

impl Tss {
    pub fn new(sid: u64, time: u64, span: u64) -> (r: Tss)
        ensures
            r == (Tss { sid, time, span }),
    {
        Tss { sid, time, span }
    }
}

/// Shorthand for a timestamp.
pub fn ts(sid: u64, time: u64) -> (r: Ts)
    ensures
        r == (Ts { sid, time }),
{
    Ts { sid, time }
}

/// Shorthand for a timestamp span.
pub fn tss(sid: u64, time: u64, span: u64) -> (r: Tss)
    ensures
        r == (Tss { sid, time, span }),
{
    Tss { sid, time, span }
}

/// The start of every document: session 0, time 0.
pub open spec fn spec_origin() -> Ts {
    Ts { sid: 0, time: 0 }
}

/// The "undefined" value of the system session: session 0, time 1.
pub open spec fn spec_undefined() -> Ts {
    Ts { sid: 0, time: 1 }
}

/// The start of every document: session 0, time 0.
pub fn origin() -> (r: Ts)
    ensures
        r == spec_origin(),
{
    Ts { sid: 0, time: 0 }
}

/// The "undefined" value of the system session: session 0, time 1.
pub fn undefined_ts() -> (r: Ts)
    ensures
        r == spec_undefined(),
{
    Ts { sid: 0, time: 1 }
}

/// Ordering of timestamps: by time first, then by session id.
/// Positive when `a` is newer than `b`, negative when older, zero when equal.
pub open spec fn spec_compare(a: Ts, b: Ts) -> int {
    if a.time == b.time {
        if a.sid == b.sid {
            0
        } else if a.sid > b.sid {
            1
        } else {
            -1
        }
    } else if a.time > b.time {
        1
    } else {
        -1
    }
}

/// Whether two timestamps are the same: same session and same time.
pub fn equal(a: Ts, b: Ts) -> (r: bool)
    ensures
        r == (a == b),
{
    a.sid == b.sid && a.time == b.time
}

/// Compares two timestamps, time first and then session id.
pub fn compare(a: Ts, b: Ts) -> (r: i32)
    ensures
        r as int == spec_compare(a, b),
        a.time > b.time ==> r > 0,
        a.time < b.time ==> r < 0,
        a.time == b.time ==> (r > 0 <==> a.sid > b.sid) && (r < 0 <==> a.sid < b.sid),
{
    if a.time == b.time {
        if a.sid == b.sid {
            0
        } else if a.sid > b.sid {
            1
        } else {
            -1
        }
    } else if a.time > b.time {
        1
    } else {
        -1
    }
}

/// The ordering is antisymmetric and zero exactly on equal timestamps.
pub proof fn lemma_compare_antisymmetric(a: Ts, b: Ts)
    ensures
        spec_compare(a, b) == -spec_compare(b, a),
        spec_compare(a, b) == 0 <==> a == b,
{
}

/// The ordering is transitive.
pub proof fn lemma_compare_transitive(a: Ts, b: Ts, c: Ts)
    requires
        spec_compare(a, b) > 0,
        spec_compare(b, c) > 0,
    ensures
        spec_compare(a, c) > 0,
{
}

/// Timestamps are ordered by time first: a later time compares greater
/// whatever the session ids, and the session id decides only between equal
/// times.
pub proof fn lemma_compare_time_first(a: Ts, b: Ts)
    ensures
        a.time > b.time ==> spec_compare(a, b) > 0,
        a.time < b.time ==> spec_compare(a, b) < 0,
        a.time == b.time && a.sid > b.sid ==> spec_compare(a, b) > 0,
        a.time == b.time && a.sid < b.sid ==> spec_compare(a, b) < 0,
{
}

} // verus!
