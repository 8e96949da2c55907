//! What durations and readings of a clock amount to.

use vstd::prelude::*;

use crate::time;
use crate::time::{Clock, Duration, Instant};

verus! {

/// A second has a thousand million nanoseconds.
pub proof fn law_duration_in_nanoseconds(duration: Duration)
    ensures
        duration.spec_nanos() == 1_000_000_000 * duration.secs + duration.nanos,
{
}

/// Milliseconds are counted in full: a million nanoseconds each, and what is
/// left over is less than one.
pub proof fn law_duration_in_milliseconds(duration: Duration, millis: int)
    ensures
        duration.spec_millis() == millis <==> 1_000_000 * millis <= 1_000_000_000 * duration.secs
            + duration.nanos < 1_000_000 * millis + 1_000_000,
{
}

/// A clock reads all the time that has passed since its origin, to the
/// nanosecond.
pub proof fn law_clock_reads_the_time_passed(clock: Clock, now: Instant)
    ensures
        clock.may_read(now) <==> exists|passed: Duration| #[trigger]
            clock.may_measure(passed) && now.nanos == 1_000_000_000 * passed.secs + passed.nanos,
{
}

/// No clock reads more than the longest time that can be measured.
pub proof fn law_last_reading()
    ensures
        time::last_reading() == 18_446_744_073_709_551_615_999_999_999int,
{
}

} // verus!
