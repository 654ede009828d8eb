//! Points in time, as seconds and nanoseconds since the Unix epoch.
use vstd::prelude::*;

verus! {

/// A UTC instant: whole seconds since the Unix epoch and the nanoseconds past them.
#[derive(Clone, Copy, Debug)]
pub struct Timestamp {
    pub secs: i64,
    pub nanos: u32,
}

/// Nanoseconds from `earlier` to `later` (negative when `later` comes first).
pub open spec fn nanos_between(later: Timestamp, earlier: Timestamp) -> int {
    (later.secs - earlier.secs) * 1_000_000_000 + (later.nanos - earlier.nanos)
}

/// Whole seconds in a span of nanoseconds, rounded toward zero.
pub open spec fn whole_seconds(nanos: int) -> int {
    if nanos >= 0 {
        nanos / 1_000_000_000
    } else {
        -((-nanos) / 1_000_000_000)
    }
}

/// `a` comes strictly before `b`: instants are ordered by seconds, then nanoseconds.
pub open spec fn is_before(a: Timestamp, b: Timestamp) -> bool {
    a.secs < b.secs || (a.secs == b.secs && a.nanos < b.nanos)
}

/// Calls `chrono::Utc::now` and reads its seconds and sub-second nanoseconds. What time it
/// is depends on the clock, so nothing is stated of the result.
#[verifier::external_body]
pub(crate) fn now() -> (r: Timestamp) {
    let t = chrono::Utc::now();
    Timestamp { secs: t.timestamp(), nanos: t.timestamp_subsec_nanos() }
}

impl Timestamp {
    /// Whether `self` comes strictly before `other`.
    pub fn before(&self, other: &Timestamp) -> (r: bool)
        ensures
            r == is_before(*self, *other),
    {
        self.secs < other.secs || (self.secs == other.secs && self.nanos < other.nanos)
    }

    /// Nanoseconds from `earlier` to `self`.
    pub fn nanos_since(&self, earlier: &Timestamp) -> (r: i128)
        ensures
            r == nanos_between(*self, *earlier),
    {
        (self.secs as i128 - earlier.secs as i128) * 1_000_000_000 + (self.nanos as i128
            - earlier.nanos as i128)
    }

    /// Whole seconds from `earlier` to `self`, rounded toward zero.
    pub fn seconds_since(&self, earlier: &Timestamp) -> (r: i128)
        ensures
            r == whole_seconds(nanos_between(*self, *earlier)),
    {
        let n = self.nanos_since(earlier);
        if n >= 0 {
            n / 1_000_000_000
        } else {
            let m: i128 = -n;
            -(m / 1_000_000_000)
        }
    }
}

} // verus!
