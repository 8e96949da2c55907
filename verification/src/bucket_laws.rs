//! What holds of draining and joining buckets, whatever they hold.

use vstd::arithmetic::div_mod::*;
use vstd::arithmetic::mul::*;
use vstd::prelude::*;

use crate::bucket;
use crate::bucket::Bucket;
use crate::time::{Duration, Instant};

verus! {

/// Up to its deadline a bucket keeps its balance and its deadline.
pub proof fn law_nothing_drains_before_the_deadline(
    credits: int,
    deadline: Instant,
    now: Instant,
    interval: Duration,
    max_balance: int,
    refill_amount: int,
)
    requires
        now.nanos <= deadline.nanos,
    ensures
        bucket::drained_credits(credits, deadline, now, interval, max_balance, refill_amount)
            == credits,
        bucket::drained_deadline(deadline, now, interval) == deadline.nanos,
        bucket::windows_since(deadline, now, interval) == 0,
{
}

/// Past its deadline a bucket gains one refill for each window that has passed
/// in full, up to the largest balance, and its next deadline lies one interval
/// ahead of `now`, less the milliseconds that the next window has run. The
/// interval has `window` whole milliseconds; of the time since the deadline,
/// `passed` windows and `running` milliseconds have gone by in full.
pub proof fn law_windows_refill(
    credits: int,
    deadline: Instant,
    now: Instant,
    interval: Duration,
    max_balance: int,
    refill_amount: int,
    window: int,
    passed: int,
    running: int,
)
    requires
        deadline.nanos < now.nanos,
        0 < window,
        1_000_000 * window <= 1_000_000_000 * interval.secs + interval.nanos < 1_000_000 * window
            + 1_000_000,
        0 <= passed,
        0 <= running < window,
        1_000_000 * (passed * window + running) <= now.nanos - deadline.nanos < 1_000_000 * (passed
            * window + running) + 1_000_000,
    ensures
        bucket::windows_since(deadline, now, interval) == passed,
        bucket::drained_credits(credits, deadline, now, interval, max_balance, refill_amount) == (
        if credits + passed * refill_amount <= max_balance {
            credits + passed * refill_amount
        } else {
            max_balance
        }),
        running <= 0xffff_ffff_ffff_ffff ==> bucket::drained_deadline(deadline, now, interval)
            == now.nanos + 1_000_000_000 * interval.secs + interval.nanos - 1_000_000 * running,
        running > 0xffff_ffff_ffff_ffff ==> bucket::drained_deadline(deadline, now, interval)
            == now.nanos + 1_000_000_000 * interval.secs + interval.nanos - 1_000_000
            * 0xffff_ffff_ffff_ffff,
{
    let millis = passed * window + running;
    assert(bucket::millis_since(deadline, now) == millis);
    assert(interval.spec_millis() == window);
    lemma_fundamental_div_mod_converse(millis, window, passed, running);
}

/// Draining keeps a balance within its bounds: it never takes credits away
/// from a balance that `max_balance` allows, and never lifts one above it.
pub proof fn law_drain_stays_in_bounds(
    credits: u64,
    deadline: Instant,
    now: Instant,
    interval: Duration,
    max_balance: u64,
    refill_amount: u64,
)
    requires
        now.nanos > deadline.nanos ==> interval.spec_millis() > 0,
        credits <= max_balance,
    ensures
        credits <= bucket::drained_credits(
            credits as int,
            deadline,
            now,
            interval,
            max_balance as int,
            refill_amount as int,
        ) <= max_balance,
{
    if now.nanos > deadline.nanos {
        lemma_windows_nonnegative(deadline, now, interval);
        lemma_mul_nonnegative(bucket::windows_since(deadline, now, interval), refill_amount as int);
    }
}

/// Past its deadline a drained bucket's next deadline lies ahead, by no more
/// than one interval.
pub proof fn law_drained_deadline_is_ahead(deadline: Instant, now: Instant, interval: Duration)
    requires
        deadline.nanos < now.nanos,
        interval.spec_millis() > 0,
    ensures
        now.nanos < bucket::drained_deadline(deadline, now, interval) <= now.nanos + interval.spec_nanos(),
{
    let window = interval.spec_millis();
    lemma_mod_bound(bucket::millis_since(deadline, now), window);
}

/// Draining a bucket a second time at the same moment changes nothing.
pub proof fn law_drain_is_idempotent(
    credits: u64,
    deadline: Instant,
    now: Instant,
    next: Instant,
    interval: Duration,
    max_balance: u64,
    refill_amount: u64,
)
    requires
        now.nanos > deadline.nanos ==> interval.spec_millis() > 0,
        next.nanos == bucket::drained_deadline(deadline, now, interval),
    ensures
        ({
            let once = bucket::drained_credits(
                credits as int,
                deadline,
                now,
                interval,
                max_balance as int,
                refill_amount as int,
            );
            bucket::drained_credits(
                once,
                next,
                now,
                interval,
                max_balance as int,
                refill_amount as int,
            ) == once && bucket::drained_deadline(next, now, interval) == next.nanos
        }),
{
    if now.nanos > deadline.nanos {
        law_drained_deadline_is_ahead(deadline, now, interval);
    }
}

/// No stretch of time is credited twice: the windows counted when a bucket is
/// drained at `now`, and those counted from its next deadline when it is
/// drained again at `later`, are together no more than those that lie between
/// the first deadline and `later`.
pub proof fn law_windows_are_not_counted_twice(
    deadline: Instant,
    now: Instant,
    next: Instant,
    later: Instant,
    interval: Duration,
)
    requires
        interval.spec_millis() > 0,
        now.nanos <= later.nanos,
        next.nanos == bucket::drained_deadline(deadline, now, interval),
    ensures
        bucket::windows_since(deadline, now, interval) + bucket::windows_since(next, later, interval)
            <= bucket::windows_since(deadline, later, interval),
{
    let window = interval.spec_millis();
    if now.nanos > deadline.nanos {
        let first = bucket::millis_since(deadline, now);
        let running = first % window;
        let p1 = first / window;
        lemma_fundamental_div_mod(first, window);
        lemma_mod_bound(first, window);
        lemma_div_pos_is_pos(first, window);
        let all = bucket::millis_since(deadline, later);
        if later.nanos > next.nanos {
            let second = bucket::millis_since(next, later);
            let p2 = second / window;
            lemma_fundamental_div_mod(second, window);
            lemma_mod_bound(second, window);
            law_drained_deadline_is_ahead(deadline, now, interval);
            assert(second >= window * p2);
            assert(window * (p1 + p2) == window * p1 + window * p2) by (nonlinear_arith);
            assert(all >= window * p1 + second);
            assert(all >= (p1 + p2) * window) by (nonlinear_arith)
                requires
                    all >= window * (p1 + p2),
            ;
            lemma_div_is_ordered((p1 + p2) * window, all, window);
            lemma_div_by_multiple(p1 + p2, window);
        } else {
            lemma_div_is_ordered(first, all, window);
        }
    }
}

/// Draining on the way never pays: a bucket that is drained at `now` and again
/// at `later` holds at most what it would hold had it been drained at `later`
/// alone.
pub proof fn law_draining_twice_gains_nothing(
    credits: u64,
    deadline: Instant,
    now: Instant,
    next: Instant,
    later: Instant,
    interval: Duration,
    max_balance: u64,
    refill_amount: u64,
)
    requires
        interval.spec_millis() > 0,
        now.nanos <= later.nanos,
        next.nanos == bucket::drained_deadline(deadline, now, interval),
    ensures
        bucket::drained_credits(
            bucket::drained_credits(
                credits as int,
                deadline,
                now,
                interval,
                max_balance as int,
                refill_amount as int,
            ),
            next,
            later,
            interval,
            max_balance as int,
            refill_amount as int,
        ) <= bucket::drained_credits(
            credits as int,
            deadline,
            later,
            interval,
            max_balance as int,
            refill_amount as int,
        ),
{
    let refill = refill_amount as int;
    let p1 = bucket::windows_since(deadline, now, interval);
    let p2 = bucket::windows_since(next, later, interval);
    let all = bucket::windows_since(deadline, later, interval);
    law_windows_are_not_counted_twice(deadline, now, next, later, interval);
    lemma_windows_nonnegative(deadline, now, interval);
    lemma_windows_nonnegative(next, later, interval);
    lemma_mul_is_distributive_add_other_way(refill, p1, p2);
    lemma_mul_inequality(p1 + p2, all, refill);
    lemma_mul_nonnegative(p1, refill);
    lemma_mul_nonnegative(p2, refill);
    lemma_mul_nonnegative(all, refill);
}

/// The number of windows is never negative.
pub proof fn lemma_windows_nonnegative(deadline: Instant, now: Instant, interval: Duration)
    requires
        now.nanos > deadline.nanos ==> interval.spec_millis() > 0,
    ensures
        0 <= bucket::windows_since(deadline, now, interval),
{
    if now.nanos > deadline.nanos {
        lemma_div_pos_is_pos(bucket::millis_since(deadline, now), interval.spec_millis());
    }
}

/// The more time has passed, the more windows have.
pub proof fn lemma_windows_monotonic(
    deadline: Instant,
    later_deadline: Instant,
    now: Instant,
    interval: Duration,
)
    requires
        interval.spec_millis() > 0,
        deadline.nanos <= later_deadline.nanos,
    ensures
        bucket::windows_since(later_deadline, now, interval) <= bucket::windows_since(deadline, now, interval),
{
    lemma_windows_nonnegative(deadline, now, interval);
    if now.nanos > later_deadline.nanos {
        lemma_div_is_ordered(
            bucket::millis_since(later_deadline, now),
            bucket::millis_since(deadline, now),
            interval.spec_millis(),
        );
    }
}

/// A joined bucket never holds more than `max_balance`, and its deadline is
/// that of one of the buckets, none of which is later.
pub proof fn law_join_is_bounded(
    buckets: Seq<Bucket>,
    max_balance: u64,
    interval: Duration,
    refill_amount: u64,
)
    requires
        buckets.len() > 0,
        interval.spec_millis() > 0 || bucket::share_deadline(buckets),
    ensures
        ({
            let (credits, deadline) = bucket::joined_bucket(buckets, max_balance, interval, refill_amount);
            &&& credits <= max_balance
            &&& exists|k: int| 0 <= k < buckets.len() && (#[trigger] buckets[k]).1 == deadline
            &&& forall|k: int|
                0 <= k < buckets.len() ==> (#[trigger] buckets[k]).1.nanos <= deadline.nanos
        }),
{
    bucket::lemma_latest_deadline(buckets);
    lemma_total_nonnegative(
        buckets,
        bucket::latest_deadline(buckets),
        interval,
        max_balance,
        refill_amount,
    );
}

/// Buckets share a deadline exactly when no two of them have different ones.
pub proof fn law_shared_deadline(buckets: Seq<Bucket>)
    ensures
        bucket::share_deadline(buckets) <==> !exists|i: int, j: int|
            0 <= i < buckets.len() && 0 <= j < buckets.len() && (#[trigger] buckets[i]).1.nanos
                < (#[trigger] buckets[j]).1.nanos,
{
}

/// Joining never brings a refill forward: from the deadline of the joined
/// bucket on, no more windows pass until any moment than pass from the deadline
/// of each bucket that went into it.
pub proof fn law_join_defers_refills(
    buckets: Seq<Bucket>,
    max_balance: u64,
    interval: Duration,
    refill_amount: u64,
    k: int,
    moment: Instant,
)
    requires
        interval.spec_millis() > 0,
        0 <= k < buckets.len(),
    ensures
        bucket::windows_since(
            bucket::joined_bucket(buckets, max_balance, interval, refill_amount).1,
            moment,
            interval,
        ) <= bucket::windows_since(buckets[k].1, moment, interval),
{
    bucket::lemma_latest_deadline(buckets);
    lemma_windows_monotonic(
        buckets[k].1,
        bucket::latest_deadline(buckets),
        moment,
        interval,
    );
}

/// A bucket that is joined with no other keeps its deadline, and its balance up
/// to `max_balance`.
pub proof fn law_join_of_one(
    bucket: Bucket,
    max_balance: u64,
    interval: Duration,
    refill_amount: u64,
)
    ensures
        bucket::joined_bucket(seq![bucket], max_balance, interval, refill_amount) == (
            bucket::min_int(bucket.0 as int, max_balance as int) as u64,
            bucket.1,
        ),
{
    let one = seq![bucket];
    assert(one.drop_last() =~= Seq::<Bucket>::empty());
    assert(one.last() == bucket);
    reveal_with_fuel(bucket::total_credits, 2);
}

/// Joining is commutative: buckets that are handed over in another order
/// become the same bucket.
pub proof fn law_join_is_commutative(
    buckets: Seq<Bucket>,
    permuted: Seq<Bucket>,
    max_balance: u64,
    interval: Duration,
    refill_amount: u64,
)
    requires
        buckets.len() > 0,
        buckets.to_multiset() == permuted.to_multiset(),
    ensures
        bucket::joined_bucket(buckets, max_balance, interval, refill_amount) == bucket::joined_bucket(
            permuted,
            max_balance,
            interval,
            refill_amount,
        ),
{
    buckets.to_multiset_ensures();
    permuted.to_multiset_ensures();
    assert(permuted.len() == buckets.len());
    bucket::lemma_latest_deadline(buckets);
    bucket::lemma_latest_deadline(permuted);
    let latest = bucket::latest_deadline(buckets);
    let other = bucket::latest_deadline(permuted);
    let k = choose|k: int| 0 <= k < buckets.len() && (#[trigger] buckets[k]).1 == latest;
    let j = choose|j: int| 0 <= j < permuted.len() && (#[trigger] permuted[j]).1 == other;
    assert(buckets.contains(buckets[k]) && permuted.contains(permuted[j]));
    assert(buckets.to_multiset().count(buckets[k]) > 0);
    assert(permuted.to_multiset().count(permuted[j]) > 0);
    assert(permuted.contains(buckets[k]) && buckets.contains(permuted[j]));
    assert(latest == other);
    lemma_total_permuted(
        buckets,
        permuted,
        latest,
        interval,
        max_balance as int,
        refill_amount as int,
    );
}

/// Joining these buckets refills none of them: between any two of their
/// deadlines no window passes in full, or refills add nothing.
pub open spec fn no_refill_due(
    buckets: Seq<Bucket>,
    interval: Duration,
    refill_amount: u64,
) -> bool {
    refill_amount == 0 || forall|i: int, j: int|
        0 <= i < buckets.len() && 0 <= j < buckets.len() ==> bucket::windows_since(
            (#[trigger] buckets[i]).1,
            (#[trigger] buckets[j]).1,
            interval,
        ) == 0
}

/// Within one window it makes no difference in how many steps buckets are
/// joined: joining some of them first, and the result with the rest, gives what
/// joining all of them at once gives.
pub proof fn law_join_in_stages(
    first: Seq<Bucket>,
    rest: Seq<Bucket>,
    max_balance: u64,
    interval: Duration,
    refill_amount: u64,
)
    requires
        first.len() > 0,
        no_refill_due(first + rest, interval, refill_amount),
    ensures
        bucket::joined_bucket(
            seq![bucket::joined_bucket(first, max_balance, interval, refill_amount)] + rest,
            max_balance,
            interval,
            refill_amount,
        ) == bucket::joined_bucket(first + rest, max_balance, interval, refill_amount),
{
    let all = first + rest;
    let joined = bucket::joined_bucket(first, max_balance, interval, refill_amount);
    let staged = seq![joined] + rest;
    bucket::lemma_latest_deadline(first);
    bucket::lemma_latest_deadline(all);
    bucket::lemma_latest_deadline(staged);
    let k = choose|k: int|
        0 <= k < first.len() && (#[trigger] first[k]).1 == bucket::latest_deadline(first);
    assert(all[k] == first[k] && staged[0] == joined);
    assert forall|i: int| 0 <= i < first.len() implies #[trigger] first[i] == all[i] by {}
    assert forall|i: int| 0 <= i < rest.len() implies #[trigger] rest[i] == all[first.len() + i]
        && rest[i] == staged[1 + i] by {}
    let latest = bucket::latest_deadline(all);
    let a = choose|a: int| 0 <= a < all.len() && (#[trigger] all[a]).1 == latest;
    let b = choose|b: int|
        0 <= b < staged.len() && (#[trigger] staged[b]).1 == bucket::latest_deadline(staged);
    assert(latest == bucket::latest_deadline(staged)) by {
        if a >= first.len() {
            assert(rest[a - first.len()] == all[a]);
        } else {
            assert(first[a] == all[a]);
        }
        if b > 0 {
            assert(rest[b - 1] == staged[b]);
        }
    }
    assert forall|i: int| 0 <= i < first.len() implies bucket::windows_since(
        (#[trigger] first[i]).1,
        first[k].1,
        interval,
    ) * refill_amount == 0 by {
        lemma_no_gain(all, interval, refill_amount, i, k);
    }
    assert forall|i: int| 0 <= i < all.len() implies bucket::windows_since(
        (#[trigger] all[i]).1,
        latest,
        interval,
    ) * refill_amount == 0 by {
        lemma_no_gain(all, interval, refill_amount, i, a);
    }
    assert forall|i: int| 0 <= i < staged.len() implies bucket::windows_since(
        (#[trigger] staged[i]).1,
        latest,
        interval,
    ) * refill_amount == 0 by {
        if i == 0 {
            lemma_no_gain(all, interval, refill_amount, k, a);
        } else {
            assert(rest[i - 1] == staged[i]);
            lemma_no_gain(all, interval, refill_amount, first.len() + i - 1, a);
        }
    }
    lemma_total_without_refill(first, first[k].1, interval, max_balance, refill_amount);
    lemma_total_without_refill(all, latest, interval, max_balance, refill_amount);
    lemma_total_without_refill(staged, latest, interval, max_balance, refill_amount);
    lemma_sum_adds(first, rest);
    lemma_sum_adds(seq![joined], rest);
    assert(seq![joined].drop_last() =~= Seq::<Bucket>::empty());
    assert(sum_of(seq![joined]) == joined.0) by {
        reveal_with_fuel(sum_of, 2);
    }
    lemma_sum_nonnegative(rest);
}

proof fn lemma_no_gain(
    buckets: Seq<Bucket>,
    interval: Duration,
    refill_amount: u64,
    i: int,
    j: int,
)
    requires
        no_refill_due(buckets, interval, refill_amount),
        0 <= i < buckets.len(),
        0 <= j < buckets.len(),
    ensures
        bucket::windows_since(buckets[i].1, buckets[j].1, interval) * refill_amount == 0,
{
    let windows = bucket::windows_since(buckets[i].1, buckets[j].1, interval);
    assert(refill_amount == 0 || windows == 0);
    assert(windows * refill_amount == 0) by (nonlinear_arith)
        requires
            refill_amount == 0 || windows == 0,
    ;
}

/// The sum of the balances that buckets have at `moment`.
pub open spec fn sum_at(
    buckets: Seq<Bucket>,
    moment: Instant,
    max_balance: u64,
    interval: Duration,
    refill_amount: u64,
) -> int
    decreases buckets.len(),
{
    if buckets.len() == 0 {
        0
    } else {
        bucket::drained_credits(
            buckets.last().0 as int,
            buckets.last().1,
            moment,
            interval,
            max_balance as int,
            refill_amount as int,
        ) + sum_at(buckets.drop_last(), moment, max_balance, interval, refill_amount)
    }
}

proof fn lemma_sum_at_is_total(
    buckets: Seq<Bucket>,
    moment: Instant,
    max_balance: u64,
    interval: Duration,
    refill_amount: u64,
)
    ensures
        sum_at(buckets, moment, max_balance, interval, refill_amount) == bucket::total_credits(
            buckets,
            moment,
            interval,
            max_balance as int,
            refill_amount as int,
        ),
    decreases buckets.len(),
{
    if buckets.len() > 0 {
        lemma_sum_at_is_total(buckets.drop_last(), moment, max_balance, interval, refill_amount);
    }
}

/// Joined buckets are one bucket with the latest deadline of all and the sum of
/// the balances that they have then, up to the largest balance. Refills can only
/// add to what they hold; where none falls due it is exactly the sum of that.
pub proof fn law_join_adds_up(
    buckets: Seq<Bucket>,
    max_balance: u64,
    interval: Duration,
    refill_amount: u64,
)
    requires
        buckets.len() > 0,
        interval.spec_millis() > 0 || bucket::share_deadline(buckets),
    ensures
        ({
            let (credits, deadline) = bucket::joined_bucket(
                buckets,
                max_balance,
                interval,
                refill_amount,
            );
            let total = sum_at(buckets, deadline, max_balance, interval, refill_amount);
            let held = sum_of(buckets);
            &&& exists|k: int| 0 <= k < buckets.len() && (#[trigger] buckets[k]).1 == deadline
            &&& forall|k: int|
                0 <= k < buckets.len() ==> (#[trigger] buckets[k]).1.nanos <= deadline.nanos
            &&& total <= max_balance ==> credits == total
            &&& total > max_balance ==> credits == max_balance
            &&& held <= max_balance ==> credits >= held
            &&& held > max_balance ==> credits == max_balance
            &&& no_refill_due(buckets, interval, refill_amount) && held <= max_balance ==> credits
                == held
        }),
{
    let latest = bucket::latest_deadline(buckets);
    law_join_is_bounded(buckets, max_balance, interval, refill_amount);
    lemma_sum_at_is_total(buckets, latest, max_balance, interval, refill_amount);
    bucket::lemma_latest_deadline(buckets);
    lemma_total_nonnegative(buckets, latest, interval, max_balance, refill_amount);
    lemma_total_is_at_least_held(buckets, latest, interval, max_balance, refill_amount);
    lemma_sum_nonnegative(buckets);
    if no_refill_due(buckets, interval, refill_amount) {
        let k = choose|k: int| 0 <= k < buckets.len() && (#[trigger] buckets[k]).1 == latest;
        assert forall|i: int| 0 <= i < buckets.len() implies bucket::windows_since(
            (#[trigger] buckets[i]).1,
            latest,
            interval,
        ) * refill_amount == 0 by {
            lemma_no_gain(buckets, interval, refill_amount, i, k);
        }
        lemma_total_without_refill(buckets, latest, interval, max_balance, refill_amount);
    }
}

proof fn lemma_total_is_at_least_held(
    buckets: Seq<Bucket>,
    now: Instant,
    interval: Duration,
    max_balance: u64,
    refill_amount: u64,
)
    requires
        interval.spec_millis() > 0 || forall|k: int|
            0 <= k < buckets.len() ==> now.nanos <= (#[trigger] buckets[k]).1.nanos,
    ensures
        ({
            let total = bucket::total_credits(
                buckets,
                now,
                interval,
                max_balance as int,
                refill_amount as int,
            );
            0 <= total && (total >= sum_of(buckets) || total >= max_balance)
        }),
    decreases buckets.len(),
{
    if buckets.len() > 0 {
        let rest = buckets.drop_last();
        assert forall|k: int| interval.spec_millis() <= 0 && 0 <= k < rest.len() implies now.nanos
            <= (#[trigger] rest[k]).1.nanos by {
            assert(rest[k] == buckets[k]);
        }
        lemma_total_is_at_least_held(rest, now, interval, max_balance, refill_amount);
        let deadline = buckets[buckets.len() - 1].1;
        lemma_windows_nonnegative(deadline, now, interval);
        lemma_mul_nonnegative(bucket::windows_since(deadline, now, interval), refill_amount as int);
    }
}

/// The sum of what buckets hold, refills aside.
pub open spec fn sum_of(buckets: Seq<Bucket>) -> int
    decreases buckets.len(),
{
    if buckets.len() == 0 {
        0
    } else {
        sum_of(buckets.drop_last()) + buckets.last().0
    }
}

proof fn lemma_sum_nonnegative(buckets: Seq<Bucket>)
    ensures
        0 <= sum_of(buckets),
    decreases buckets.len(),
{
    if buckets.len() > 0 {
        lemma_sum_nonnegative(buckets.drop_last());
    }
}

proof fn lemma_sum_adds(first: Seq<Bucket>, rest: Seq<Bucket>)
    ensures
        sum_of(first + rest) == sum_of(first) + sum_of(rest),
    decreases rest.len(),
{
    if rest.len() == 0 {
        assert(first + rest =~= first);
    } else {
        assert((first + rest).drop_last() =~= first + rest.drop_last());
        assert((first + rest).last() == rest.last());
        lemma_sum_adds(first, rest.drop_last());
    }
}

/// Where no refill falls due until `now`, balances add up to what buckets hold,
/// as far as `max_balance` lets them.
proof fn lemma_total_without_refill(
    buckets: Seq<Bucket>,
    now: Instant,
    interval: Duration,
    max_balance: u64,
    refill_amount: u64,
)
    requires
        forall|i: int|
            0 <= i < buckets.len() ==> bucket::windows_since(
                (#[trigger] buckets[i]).1,
                now,
                interval,
            ) * refill_amount == 0,
    ensures
        ({
            let total = bucket::total_credits(
                buckets,
                now,
                interval,
                max_balance as int,
                refill_amount as int,
            );
            &&& 0 <= total
            &&& bucket::min_int(total, max_balance as int) == bucket::min_int(
                sum_of(buckets),
                max_balance as int,
            )
        }),
    decreases buckets.len(),
{
    if buckets.len() > 0 {
        let before = buckets.drop_last();
        assert(buckets[buckets.len() - 1] == buckets.last());
        assert forall|i: int| 0 <= i < before.len() implies bucket::windows_since(
            (#[trigger] before[i]).1,
            now,
            interval,
        ) * refill_amount == 0 by {
            assert(before[i] == buckets[i]);
        }
        lemma_total_without_refill(before, now, interval, max_balance, refill_amount);
        lemma_sum_nonnegative(before);
    }
}

/// The sum of the balances does not depend on the order of the buckets.
proof fn lemma_total_permuted(
    buckets: Seq<Bucket>,
    permuted: Seq<Bucket>,
    now: Instant,
    interval: Duration,
    max_balance: int,
    refill_amount: int,
)
    requires
        buckets.to_multiset() == permuted.to_multiset(),
    ensures
        bucket::total_credits(buckets, now, interval, max_balance, refill_amount) == bucket::total_credits(
            permuted,
            now,
            interval,
            max_balance,
            refill_amount,
        ),
    decreases buckets.len(),
{
    buckets.to_multiset_ensures();
    permuted.to_multiset_ensures();
    assert(permuted.len() == buckets.len());
    if buckets.len() > 0 {
        let last = buckets.last();
        assert(buckets[buckets.len() - 1] == last);
        assert(buckets.contains(last));
        assert(buckets.to_multiset().count(last) > 0);
        assert(permuted.contains(last));
        let i = choose|i: int| 0 <= i < permuted.len() && permuted[i] == last;
        assert(buckets.drop_last() =~= buckets.remove(buckets.len() - 1));
        assert(buckets.drop_last().to_multiset() =~= permuted.remove(i).to_multiset());
        lemma_total_permuted(
            buckets.drop_last(),
            permuted.remove(i),
            now,
            interval,
            max_balance,
            refill_amount,
        );
        lemma_total_without(permuted, i, now, interval, max_balance, refill_amount);
    }
}

/// Taking one bucket out lowers the sum by that bucket's balance.
proof fn lemma_total_without(
    buckets: Seq<Bucket>,
    i: int,
    now: Instant,
    interval: Duration,
    max_balance: int,
    refill_amount: int,
)
    requires
        0 <= i < buckets.len(),
    ensures
        bucket::total_credits(buckets, now, interval, max_balance, refill_amount) == bucket::total_credits(
            buckets.remove(i),
            now,
            interval,
            max_balance,
            refill_amount,
        ) + bucket::drained_credits(
            buckets[i].0 as int,
            buckets[i].1,
            now,
            interval,
            max_balance,
            refill_amount,
        ),
    decreases buckets.len(),
{
    if i == buckets.len() - 1 {
        assert(buckets.remove(i) =~= buckets.drop_last());
    } else {
        let rest = buckets.drop_last();
        lemma_total_without(rest, i, now, interval, max_balance, refill_amount);
        assert(buckets.remove(i).drop_last() =~= rest.remove(i));
        assert(buckets.remove(i).last() == buckets.last());
    }
}

/// The sum of the balances is never negative.
pub proof fn lemma_total_nonnegative(
    buckets: Seq<Bucket>,
    now: Instant,
    interval: Duration,
    max_balance: u64,
    refill_amount: u64,
)
    requires
        interval.spec_millis() > 0 || forall|k: int|
            0 <= k < buckets.len() ==> now.nanos <= (#[trigger] buckets[k]).1.nanos,
    ensures
        0 <= bucket::total_credits(buckets, now, interval, max_balance as int, refill_amount as int),
    decreases buckets.len(),
{
    if buckets.len() > 0 {
        let rest = buckets.drop_last();
        assert forall|k: int| interval.spec_millis() <= 0 && 0 <= k < rest.len() implies now.nanos
            <= (#[trigger] rest[k]).1.nanos by {
            assert(rest[k] == buckets[k]);
        }
        lemma_total_nonnegative(rest, now, interval, max_balance, refill_amount);
        let deadline = buckets[buckets.len() - 1].1;
        lemma_windows_nonnegative(deadline, now, interval);
        lemma_mul_nonnegative(bucket::windows_since(deadline, now, interval), refill_amount as int);
    }
}

} // verus!
