//! Points in time and spans of time, counted in nanoseconds.

use vstd::prelude::*;

verus! {

/// Nanoseconds of a monotonic clock since some fixed start.
pub type Instant = u64;

/// A span of time in nanoseconds.
pub type Duration = u64;

pub const MILLISECOND: Duration = 1_000_000;

pub const SECOND: Duration = 1_000_000_000;

/// How long ago a point in time was; one that is yet to come was no time ago.
pub open spec fn age(now: Instant, then: Instant) -> Duration {
    if now >= then {
        (now - then) as u64
    } else {
        0
    }
}

/// How long ago a point in time was.
pub fn since(now: Instant, then: Instant) -> (r: Duration)
    ensures
        r == age(now, then),
{
    if now >= then {
        now - then
    } else {
        0
    }
}

/// A point in time some time later, as far as the clock goes.
pub open spec fn later(now: Instant, span: Duration) -> Instant {
    if now + span <= u64::MAX {
        (now + span) as u64
    } else {
        u64::MAX
    }
}

pub fn after(now: Instant, span: Duration) -> (r: Instant)
    ensures
        r == later(now, span),
{
    match now.checked_add(span) {
        Some(then) => then,
        None => u64::MAX,
    }
}

} // verus!
