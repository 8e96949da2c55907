//! The token bucket: how time refills one bucket, and how the buckets that
//! several nodes keep for one sender become one.

use vstd::prelude::*;

use crate::time::{Duration, Instant};

verus! {

/// A sender's credits, and the deadline after which they are refilled.
pub type Bucket = (u64, Instant);

pub open spec fn min_int(a: int, b: int) -> int {
    if a <= b {
        a
    } else {
        b
    }
}

/// The whole milliseconds from `deadline` to `now`.
pub open spec fn millis_since(deadline: Instant, now: Instant) -> int {
    (now.nanos - deadline.nanos) / 1_000_000
}

/// The refill windows that have passed in full between `deadline` and `now`;
/// none when the deadline has not passed.
pub open spec fn windows_since(deadline: Instant, now: Instant, interval: Duration) -> int {
    if now.nanos <= deadline.nanos {
        0
    } else {
        millis_since(deadline, now) / interval.spec_millis()
    }
}

/// The balance at `now` of a bucket that held `credits` at its deadline: each
/// window that has passed since then adds `refill_amount`, up to `max_balance`.
/// Before the deadline nothing changes.
pub open spec fn drained_credits(
    credits: int,
    deadline: Instant,
    now: Instant,
    interval: Duration,
    max_balance: int,
    refill_amount: int,
) -> int {
    if now.nanos <= deadline.nanos {
        credits
    } else {
        min_int(
            credits + windows_since(deadline, now, interval) * refill_amount,
            max_balance,
        )
    }
}

/// The deadline, in nanoseconds, that a bucket has after it was drained at
/// `now`: one interval ahead, less the milliseconds of the window that is
/// still running. Milliseconds are counted up to `u64::MAX`.
pub open spec fn drained_deadline(deadline: Instant, now: Instant, interval: Duration) -> int {
    if now.nanos <= deadline.nanos {
        deadline.nanos as int
    } else {
        now.nanos + interval.spec_nanos() - min_int(
            millis_since(deadline, now) % interval.spec_millis(),
            u64::MAX as int,
        ) * 1_000_000
    }
}

/// Brings a bucket's balance up to date.
///
/// Up to its deadline the bucket stays as it is, which is what holds back
/// bursts. Past the deadline every full window adds `refill_amount` credits, the
/// balance is cut to `max_balance`, and the deadline moves to the end of the
/// window that is running, so that no stretch of time is credited twice.
pub fn drain_bucket(
    current_credits: u64,
    deadline: Instant,
    now: Instant,
    interval: Duration,
    max_balance: u64,
    refill_amount: u64,
) -> (drained: Option<Bucket>)
    requires
        now.nanos > deadline.nanos ==> interval.spec_millis() > 0,
        drained_deadline(deadline, now, interval) <= u128::MAX,
    ensures
        drained matches Some((credits, next)) && credits == drained_credits(
            current_credits as int,
            deadline,
            now,
            interval,
            max_balance as int,
            refill_amount as int,
        ) && next.nanos == drained_deadline(deadline, now, interval),
{
    if now.nanos <= deadline.nanos {
        return Some((current_credits, deadline));
    }
    let credits = refilled_credits(
        current_credits,
        deadline,
        now,
        interval,
        max_balance,
        refill_amount,
    );
    let window: u128 = interval.as_millis();
    let since: u128 = (now.nanos - deadline.nanos) / 1_000_000;
    let running: u128 = since % window;
    let remaining: u128 = if running <= u64::MAX as u128 {
        running
    } else {
        u64::MAX as u128
    };
    let length: u128 = interval.as_nanos();
    assert(window * 1_000_000 <= length);
    let ahead: u128 = length - remaining * 1_000_000;
    Some((credits, Instant { nanos: now.nanos + ahead }))
}

/// The balance of a bucket whose deadline has passed.
fn refilled_credits(
    current_credits: u64,
    deadline: Instant,
    now: Instant,
    interval: Duration,
    max_balance: u64,
    refill_amount: u64,
) -> (credits: u64)
    requires
        now.nanos > deadline.nanos ==> interval.spec_millis() > 0,
    ensures
        credits == drained_credits(
            current_credits as int,
            deadline,
            now,
            interval,
            max_balance as int,
            refill_amount as int,
        ),
{
    if now.nanos <= deadline.nanos {
        return current_credits;
    }
    let window: u128 = interval.as_millis();
    let since: u128 = (now.nanos - deadline.nanos) / 1_000_000;
    let passed: u128 = since / window;
    let periods: u64 = if passed <= u64::MAX as u128 {
        passed as u64
    } else {
        u64::MAX
    };
    proof {
        lemma_refill_saturates(passed as int, refill_amount as int);
    }
    let gained: u64 = match periods.checked_mul(refill_amount) {
        Some(gained) => gained,
        None => max_balance,
    };
    let credits: u64 = current_credits.saturating_add(gained);
    if credits <= max_balance {
        credits
    } else {
        max_balance
    }
}

/// Counting windows only up to `u64::MAX` loses nothing: from there on every
/// refill that adds anything at all adds more than a balance can hold.
proof fn lemma_refill_saturates(passed: int, refill_amount: int)
    requires
        0 <= refill_amount,
    ensures
        passed > u64::MAX && refill_amount > 0 ==> passed * refill_amount > u64::MAX
            && u64::MAX * refill_amount >= u64::MAX,
        refill_amount == 0 ==> passed * refill_amount == 0 && u64::MAX * refill_amount == 0,
{
    if refill_amount > 0 {
        assert(passed > u64::MAX ==> passed * refill_amount > u64::MAX) by (nonlinear_arith)
            requires
                refill_amount >= 1,
        ;
        assert(u64::MAX * refill_amount >= u64::MAX) by (nonlinear_arith)
            requires
                refill_amount >= 1,
        ;
    }
}

/// The latest deadline among `buckets`.
pub open spec fn latest_deadline(buckets: Seq<Bucket>) -> Instant
    recommends
        buckets.len() > 0,
    decreases buckets.len(),
{
    if buckets.len() <= 1 {
        buckets[0].1
    } else {
        let earlier = latest_deadline(buckets.drop_last());
        if earlier.nanos < buckets.last().1.nanos {
            buckets.last().1
        } else {
            earlier
        }
    }
}

/// The sum of the balances that `buckets` have at `now`.
pub open spec fn total_credits(
    buckets: Seq<Bucket>,
    now: Instant,
    interval: Duration,
    max_balance: int,
    refill_amount: int,
) -> int
    decreases buckets.len(),
{
    if buckets.len() == 0 {
        0
    } else {
        let (credits, deadline) = buckets.last();
        total_credits(buckets.drop_last(), now, interval, max_balance, refill_amount)
            + drained_credits(credits as int, deadline, now, interval, max_balance, refill_amount)
    }
}

/// The bucket that `buckets` become together: its deadline is the latest of
/// theirs, and its balance the sum of theirs at that moment, up to
/// `max_balance`.
pub open spec fn joined_bucket(
    buckets: Seq<Bucket>,
    max_balance: u64,
    interval: Duration,
    refill_amount: u64,
) -> Bucket {
    let latest = latest_deadline(buckets);
    let total = total_credits(buckets, latest, interval, max_balance as int, refill_amount as int);
    (min_int(total, max_balance as int) as u64, latest)
}

/// All of `buckets` have one deadline, so that joining them refills none.
pub open spec fn share_deadline(buckets: Seq<Bucket>) -> bool {
    forall|i: int, j: int|
        0 <= i < buckets.len() && 0 <= j < buckets.len() ==> (#[trigger] buckets[i]).1.nanos == (
        #[trigger] buckets[j]).1.nanos
}

/// Joins the buckets that several nodes keep for one sender.
///
/// Every bucket is drained to the latest deadline among them, and the balances
/// are added up. The order of the buckets does not matter.
pub fn join_buckets(
    buckets: &[Bucket],
    max_bucket_balance: u64,
    bucket_interval: Duration,
    refill_amount: u64,
) -> (joined: Bucket)
    requires
        buckets@.len() > 0,
        bucket_interval.spec_millis() > 0 || share_deadline(buckets@),
    ensures
        joined == joined_bucket(buckets@, max_bucket_balance, bucket_interval, refill_amount),
{
    let mut latest_request = buckets[0].1;
    for i in 1..buckets.len()
        invariant
            buckets@.len() > 0,
            latest_request == latest_deadline(buckets@.take(i as int)),
    {
        assert(buckets@.take(i + 1).drop_last() == buckets@.take(i as int));
        if latest_request.nanos < buckets[i].1.nanos {
            latest_request = buckets[i].1;
        }
    }
    assert(buckets@.take(buckets@.len() as int) == buckets@);
    proof {
        lemma_latest_deadline(buckets@);
    }
    let ghost max_balance = max_bucket_balance as int;
    let ghost refill = refill_amount as int;
    let mut total: u64 = 0;
    for i in 0..buckets.len()
        invariant
            latest_request == latest_deadline(buckets@),
            bucket_interval.spec_millis() > 0 || share_deadline(buckets@),
            max_balance == max_bucket_balance,
            refill == refill_amount,
            exists|k: int| 0 <= k < buckets@.len() && buckets@[k].1 == latest_request,
            total == min_int(
                total_credits(
                    buckets@.take(i as int),
                    latest_request,
                    bucket_interval,
                    max_balance,
                    refill,
                ),
                u64::MAX as int,
            ),
    {
        assert(buckets@.take(i + 1).drop_last() == buckets@.take(i as int));
        let (credits, deadline) = buckets[i];
        let drained: u64 = refilled_credits(
            credits,
            deadline,
            latest_request,
            bucket_interval,
            max_bucket_balance,
            refill_amount,
        );
        total = total.saturating_add(drained);
    }
    let capped: u64 = if total <= max_bucket_balance {
        total
    } else {
        max_bucket_balance
    };
    (capped, latest_request)
}

/// The latest deadline is one of the deadlines, and none is later.
pub proof fn lemma_latest_deadline(buckets: Seq<Bucket>)
    requires
        buckets.len() > 0,
    ensures
        exists|k: int|
            0 <= k < buckets.len() && (#[trigger] buckets[k]).1 == latest_deadline(buckets),
        forall|k: int|
            0 <= k < buckets.len() ==> (#[trigger] buckets[k]).1.nanos <= latest_deadline(
                buckets,
            ).nanos,
    decreases buckets.len(),
{
    if buckets.len() > 1 {
        let rest = buckets.drop_last();
        lemma_latest_deadline(rest);
        let k = choose|k: int|
            0 <= k < rest.len() && (#[trigger] rest[k]).1 == latest_deadline(rest);
        assert(buckets[k] == rest[k]);
        assert(buckets[buckets.len() - 1] == buckets.last());
        assert forall|j: int| 0 <= j < buckets.len() implies (#[trigger] buckets[j]).1.nanos
            <= latest_deadline(buckets).nanos by {
            if j < rest.len() {
                assert(rest[j] == buckets[j]);
            }
        }
    } else {
        assert(buckets[0].1 == latest_deadline(buckets));
    }
}

} // verus!
