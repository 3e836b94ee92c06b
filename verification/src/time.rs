//! Spans and points of monotonic time, in nanoseconds.
use vstd::prelude::*;

verus! {

/// A span of time.
#[derive(Debug, Clone, Copy, PartialEq, Eq, Structural)]
pub struct Duration {
    pub nanos: u128,
}

impl Duration {
    /// A span of whole seconds.
    pub fn from_secs(secs: u64) -> (r: Self)
        ensures
            r.nanos == secs * 1_000_000_000,
    {
        Duration { nanos: secs as u128 * 1_000_000_000 }
    }

    /// A span of whole milliseconds.
    pub fn from_millis(millis: u64) -> (r: Self)
        ensures
            r.nanos == millis * 1_000_000,
    {
        Duration { nanos: millis as u128 * 1_000_000 }
    }

    /// The whole seconds of the span.
    pub open spec fn whole(self) -> int {
        self.nanos as int / 1_000_000_000
    }

    /// The span without what is left over after its whole seconds.
    pub fn whole_secs(&self) -> (r: Self)
        ensures
            r.nanos == self.whole() * 1_000_000_000,
    {
        Duration { nanos: self.nanos - self.nanos % 1_000_000_000 }
    }

    /// Whether the span is empty.
    pub fn is_zero(&self) -> (r: bool)
        ensures
            r == (self.nanos == 0),
    {
        self.nanos == 0
    }
}

/// A point of time, counted from the moment a [`Clock`] was started.
#[derive(Debug, Clone, Copy, PartialEq, Eq, Structural)]
pub struct Instant {
    pub nanos: u128,
}

impl Instant {
    /// The time from `earlier` to `self`, or zero if `earlier` is later.
    pub open spec fn since(self, earlier: Instant) -> int {
        if self.nanos >= earlier.nanos {
            self.nanos - earlier.nanos
        } else {
            0
        }
    }

    /// The time from `earlier` to `self`, or zero if `earlier` is later.
    pub fn duration_since(&self, earlier: Instant) -> (r: Duration)
        ensures
            r.nanos == self.since(earlier),
    {
        if self.nanos >= earlier.nanos {
            Duration { nanos: self.nanos - earlier.nanos }
        } else {
            Duration { nanos: 0 }
        }
    }
}

/// `std::time::Instant`, carried through unopened.
#[verifier::external_type_specification]
#[verifier::external_body]
pub struct ExInstant(std::time::Instant);

/// `std::time::Instant::now`. Nothing is said of what it reads.
#[verifier::external_body]
fn read_clock() -> std::time::Instant {
    std::time::Instant::now()
}

/// `std::time::Instant::elapsed`, in nanoseconds. Nothing is said of what it reads.
#[verifier::external_body]
fn elapsed_nanos(origin: &std::time::Instant) -> u128 {
    origin.elapsed().as_nanos()
}

/// A running monotonic clock.
pub struct Clock {
    origin: std::time::Instant,
}

impl Clock {
    /// Whether the clock was started by reading the time.
    pub closed spec fn is_started(&self) -> bool {
        call_ensures(read_clock, (), self.origin)
    }

    /// Whether the clock gives `now`: the outcomes of reading it, of which nothing
    /// more is known.
    pub closed spec fn gives(&self, now: Instant) -> bool {
        call_ensures(elapsed_nanos, (&self.origin,), now.nanos)
    }

    /// Starts a clock.
    pub fn start() -> (r: Self)
        ensures
            r.is_started(),
    {
        Clock { origin: read_clock() }
    }

    /// The time on the clock. Any time may be read.
    pub fn now(&self) -> (r: Instant)
        ensures
            self.gives(r),
    {
        Instant { nanos: elapsed_nanos(&self.origin) }
    }
}

/// From one point of time to a later one passes what lies between them, and to an
/// earlier one nothing.
pub proof fn law_time_between(start: Instant, later: Instant, nanos: int)
    requires
        later.nanos == start.nanos + nanos,
    ensures
        nanos >= 0 ==> later.since(start) == nanos,
        nanos <= 0 ==> later.since(start) == 0,
        start.since(start) == 0,
{
}

/// The whole seconds of a span are those that fit into it.
pub proof fn law_whole_seconds(span: Duration, secs: int, rest: int)
    requires
        span.nanos == secs * 1_000_000_000 + rest,
        0 <= rest < 1_000_000_000,
    ensures
        span.whole() == secs,
{
}

}
