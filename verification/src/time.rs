//! Points in time, lengths of time, and the clock that the limiter reads.

use vstd::prelude::*;

verus! {

/// A length of time: whole seconds and the nanoseconds on top of them.
#[derive(Clone, Copy, Debug, PartialEq, Eq, Hash)]
pub struct Duration {
    pub secs: u64,
    pub nanos: u32,
}

impl Duration {
    /// The whole length in nanoseconds.
    pub open spec fn spec_nanos(self) -> int {
        self.secs * 1_000_000_000 + self.nanos
    }

    /// The number of whole milliseconds.
    pub open spec fn spec_millis(self) -> int {
        self.spec_nanos() / 1_000_000
    }

    /// A length of `secs` seconds.
    pub fn from_secs(secs: u64) -> (duration: Self)
        ensures
            duration == (Duration { secs, nanos: 0 }),
            duration.spec_nanos() == secs * 1_000_000_000,
    {
        Duration { secs, nanos: 0 }
    }

    /// A length of `millis` milliseconds.
    pub fn from_millis(millis: u64) -> (duration: Self)
        ensures
            duration.nanos < 1_000_000_000,
            duration.spec_nanos() == millis * 1_000_000,
            duration.secs * 1_000_000_000 + duration.nanos == millis * 1_000_000,
    {
        let rest: u64 = millis % 1000;
        Duration { secs: millis / 1000, nanos: (rest * 1_000_000) as u32 }
    }

    /// The whole length in nanoseconds.
    pub fn as_nanos(&self) -> (nanos: u128)
        ensures
            nanos == self.spec_nanos(),
            nanos == self.secs * 1_000_000_000 + self.nanos,
    {
        (self.secs as u128) * 1_000_000_000 + (self.nanos as u128)
    }

    /// The number of whole milliseconds.
    pub fn as_millis(&self) -> (millis: u128)
        ensures
            millis == self.spec_millis(),
            1_000_000 * millis <= self.secs * 1_000_000_000 + self.nanos < 1_000_000 * (millis + 1),
    {
        self.as_nanos() / 1_000_000
    }
}

/// A point in time: the nanoseconds that lie between a clock's origin and it.
/// Two instants can be compared when they were read from copies of one clock.
#[derive(Clone, Copy, Debug, PartialEq, Eq, PartialOrd, Ord, Hash)]
pub struct Instant {
    pub nanos: u128,
}

/// The largest value that any clock can read.
pub open spec fn last_reading() -> int {
    u64::MAX * 1_000_000_000 + 999_999_999
}

/// A monotonic clock. Copies share the origin, so what they read can be
/// compared; limiters that exchange buckets are built on copies of one clock.
#[derive(Clone, Copy, Debug)]
pub struct Clock {
    origin: std::time::Instant,
}

impl Clock {
    /// The origin is a moment that the machine's monotonic clock has given.
    pub closed spec fn is_started(self) -> bool {
        call_ensures(monotonic_now, (), self.origin)
    }

    /// `passed` is a length of time that the machine may measure from the origin
    /// on.
    pub closed spec fn may_measure(self, passed: Duration) -> bool {
        call_ensures(elapsed_since, (&self.origin,), passed)
    }

    /// `now` is a moment that this clock may read: the nanoseconds of a length of
    /// time that the machine may measure from the origin on.
    pub open spec fn may_read(self, now: Instant) -> bool {
        exists|passed: Duration| #[trigger]
            self.may_measure(passed) && now.nanos == passed.spec_nanos()
    }

    /// A clock whose origin is the present moment.
    pub fn start() -> (clock: Clock)
        ensures
            clock.is_started(),
    {
        Clock { origin: monotonic_now() }
    }

    /// The present moment, measured from the origin. Which one it is, is the
    /// machine's to say.
    pub fn now(&self) -> (now: Instant)
        ensures
            self.may_read(now),
            now.nanos <= last_reading(),
    {
        let elapsed = elapsed_since(&self.origin);
        assert(self.may_measure(elapsed));
        Instant { nanos: elapsed.as_nanos() }
    }
}

/// A clock is started with a moment that the machine gave.
proof fn law_origins_are_given(clock: Clock)
    requires
        clock.is_started(),
    ensures
        call_ensures(monotonic_now, (), clock.origin),
{
}

/// What a clock may measure is what has elapsed since its origin.
proof fn law_measures_are_elapsed_times(clock: Clock, passed: Duration)
    requires
        clock.may_measure(passed),
    ensures
        call_ensures(elapsed_since, (&clock.origin,), passed),
{
}

/// `std::time::Instant`, which a clock keeps as its origin.
#[verifier::external_type_specification]
#[verifier::external_body]
pub struct ExStdInstant(std::time::Instant);

/// `std::time::Instant::now`: the present moment on the machine's monotonic
/// clock. Nothing is claimed of it.
#[verifier::external_body]
fn monotonic_now() -> std::time::Instant {
    std::time::Instant::now()
}

/// `std::time::Instant::elapsed`: the time that has passed since `origin`,
/// taken apart by `as_secs` and `subsec_nanos` into its seconds and the
/// nanoseconds on top, which are fewer than a second has. How much it is depends
/// on when the call is made, so nothing more is claimed of it.
#[verifier::external_body]
fn elapsed_since(origin: &std::time::Instant) -> (passed: Duration)
    ensures
        passed.nanos < 1_000_000_000,
{
    let elapsed = origin.elapsed();
    Duration { secs: elapsed.as_secs(), nanos: elapsed.subsec_nanos() }
}

} // verus!
