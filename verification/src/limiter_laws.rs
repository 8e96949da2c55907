//! What holds of the decisions of a limiter, over one request and over many.

use vstd::arithmetic::mul::*;
use vstd::prelude::*;

use crate::bucket;
use crate::bucket::Bucket;
use crate::bucket_laws;
use crate::lease_laws;
use crate::leases;
use crate::leases::Limits;
use crate::limiter;
use crate::limiter::{Assessment, RateLimitError, RateLimiter};
use crate::listener::Reply;
use crate::request::{RateLimitRequest, RateLimitResponse, Sender};
use crate::share;
use crate::table::LeaseTable;
use crate::time::{Duration, Instant};

verus! {

/// Credits are told as they are where 32 bits can hold them, and otherwise less
/// some multiple of `2^32`.
pub proof fn law_credits_are_told_as_they_are(credits: int)
    requires
        0 <= credits,
    ensures
        credits <= 0xffff_ffff ==> limiter::low_bits(credits) == credits,
        exists|rounds: int|
            credits == limiter::low_bits(credits) + #[trigger] (rounds * 0x1_0000_0000),
{
    let rounds = credits / 0x1_0000_0000;
    assert(credits == limiter::low_bits(credits) + rounds * 0x1_0000_0000);
}

/// A bucket that holds what the request costs pays for it, and the rest is told;
/// one that holds less pays nothing, and what the sender had is told.
pub proof fn law_bucket_decides(held: Bucket, assessed: Assessment)
    ensures
        ({
            let response = limiter::decision(held, assessed);
            &&& response.approved <==> assessed.credits_needed <= held.0
            &&& response.approved && held.0 - assessed.credits_needed <= 0xffff_ffff
                ==> response.remaining_credits == held.0 - assessed.credits_needed
            &&& !response.approved && assessed.current_credits <= 0xffff_ffff
                ==> response.remaining_credits == assessed.current_credits
        }),
{
}

/// What is found out of a request: its cost, its sender's limit, its sender's
/// balance of the moment, and whether a sync is due.
pub proof fn law_assessment(
    limits: Limits,
    table: Map<Sender, Bucket>,
    request: RateLimitRequest,
    participants: u64,
    now: Instant,
)
    ensures
        ({
            let assessed = limits.assessment(table, request, participants, now);
            &&& assessed.credits_needed == request.request_data.spec_credits_needed()
            &&& assessed.max_balance == limits.spec_max_limit(request.sender)
            &&& assessed.current_credits == limits.up_to_date(table, request.sender, now).0
            &&& assessed.sync_needed <==> share::needs_sync(
                assessed.max_balance,
                assessed.credits_needed,
                participants,
            )
        }),
{
}

/// The bucket of a known sender is brought up to date under the sender's own
/// limit: it is drained at `now`.
pub proof fn law_known_bucket_is_drained(
    limits: Limits,
    table: Map<Sender, Bucket>,
    sender: Sender,
    now: Instant,
)
    requires
        limits.interval.spec_millis() > 0,
        table.contains_key(sender),
        bucket::drained_deadline(table[sender].1, now, limits.interval) <= u128::MAX,
    ensures
        ({
            let (credits, deadline) = limits.up_to_date(table, sender, now);
            &&& credits == bucket::drained_credits(
                table[sender].0 as int,
                table[sender].1,
                now,
                limits.interval,
                limits.spec_max_limit(sender) as int,
                limits.refill_amount as int,
            )
            &&& deadline.nanos == bucket::drained_deadline(table[sender].1, now, limits.interval)
        }),
{
    bucket_laws::lemma_windows_nonnegative(table[sender].1, now, limits.interval);
    lemma_mul_nonnegative(
        bucket::windows_since(table[sender].1, now, limits.interval),
        limits.refill_amount as int,
    );
    if now.nanos > table[sender].1.nanos {
        bucket_laws::law_drained_deadline_is_ahead(table[sender].1, now, limits.interval);
    }
}

/// A request that no sync comes before is decided on the sender's own bucket
/// alone. If the bucket holds the credits they are gone afterwards, and the
/// deadline is at least one interval from the moment of the charge; if not, the
/// bucket keeps what it has. All other buckets stay as they are.
pub proof fn law_request_is_decided_on_its_bucket(
    limits: Limits,
    table: Map<Sender, Bucket>,
    request: RateLimitRequest,
    participants: u64,
    blocking: bool,
    now: Instant,
    received: Seq<Seq<Map<Sender, Bucket>>>,
    later: Instant,
)
    requires
        !blocking || !share::needs_sync(
            limits.spec_max_limit(request.sender),
            request.request_data.spec_credits_needed() as u64,
            participants,
        ),
        later.nanos + 1_000_000_000 * limits.interval.secs + limits.interval.nanos <= u128::MAX,
    ensures
        ({
            let sender = request.sender;
            let cost = request.request_data.spec_credits_needed();
            let (credits, deadline) = limits.up_to_date(table, sender, now);
            let (after, result) = limits.checked(
                table,
                request,
                participants,
                blocking,
                now,
                received,
                later,
            );
            let ahead = later.nanos + 1_000_000_000 * limits.interval.secs + limits.interval.nanos;
            &&& result matches Ok(response)
            &&& after.contains_key(sender)
            &&& forall|other: Sender|
                other != sender ==> (#[trigger] after.contains_key(other) <==> table.contains_key(
                    other,
                )) && (table.contains_key(other) ==> after[other] == table[other])
            &&& if cost <= credits {
                &&& response.approved
                &&& credits - cost <= 0xffff_ffff ==> response.remaining_credits == credits - cost
                &&& after[sender].0 == credits - cost
                &&& deadline.nanos <= ahead ==> after[sender].1.nanos == ahead
                &&& deadline.nanos > ahead ==> after[sender].1.nanos == deadline.nanos
            } else {
                &&& !response.approved
                &&& credits <= 0xffff_ffff ==> response.remaining_credits == credits
                &&& after[sender] == (credits, deadline)
            }
        }),
{
    let cost = request.request_data.spec_credits_needed();
    assert(0 <= cost <= u32::MAX);
}

/// Every request of another node is granted, leaves no trace, and is told the
/// largest number that 32 bits can hold.
pub proof fn law_nodes_always_pass(
    before: RateLimiter,
    request: RateLimitRequest,
    blocking: bool,
    after: RateLimiter,
    result: Result<RateLimitResponse, RateLimitError>,
)
    requires
        before.check_leads_to(request, blocking, after, result),
        request.sender is Node,
    ensures
        after@ == before@,
        after.spec_heard() == before.spec_heard(),
        result matches Ok(response) && response.approved && response.remaining_credits
            == 0xffff_ffff,
{
}

/// A check changes none of the limiter's settings.
pub proof fn law_checks_keep_the_settings(
    before: RateLimiter,
    request: RateLimitRequest,
    blocking: bool,
    after: RateLimiter,
    result: Result<RateLimitResponse, RateLimitError>,
)
    requires
        before.check_leads_to(request, blocking, after, result),
    ensures
        after.spec_limits() == before.spec_limits(),
        after.spec_node_id() == before.spec_node_id(),
        after.spec_epoch() == before.spec_epoch(),
        after.spec_clock() == before.spec_clock(),
        after.spec_participants() == before.spec_participants(),
        after.spec_sync_channel() == before.spec_sync_channel(),
{
}

/// Where no sync is waited for, nobody is heard, and the check is decided at two
/// readings of the limiter's clock on what the limiter knows.
pub proof fn law_check_without_a_sync(
    before: RateLimiter,
    request: RateLimitRequest,
    blocking: bool,
    after: RateLimiter,
    result: Result<RateLimitResponse, RateLimitError>,
)
    requires
        before.check_leads_to(request, blocking, after, result),
        request.sender !is Node,
        !blocking || !share::needs_sync(
            before.spec_limits().spec_max_limit(request.sender),
            request.request_data.spec_credits_needed() as u64,
            before.spec_participants(),
        ),
    ensures
        after.spec_heard() == before.spec_heard(),
        exists|now: Instant, later: Instant|
            before.spec_clock().may_read(now) && before.spec_clock().may_read(later) && (
                after@,
                result,
            ) == #[trigger] before.spec_limits().checked(
                before@,
                request,
                before.spec_participants(),
                blocking,
                now,
                Seq::empty(),
                later,
            ),
{
    let limits = before.spec_limits();
    let participants = before.spec_participants();
    let (now, messages, later) = choose|
        now: Instant,
        messages: Seq<Vec<LeaseTable>>,
        later: Instant,
    |
        before.readings_and_messages(request, blocking, now, messages, later) && before.hears_only(
            request,
            blocking,
            messages,
            after.spec_heard(),
        ) && (after@, result) == #[trigger] limits.checked(
            before@,
            request,
            participants,
            blocking,
            now,
            limiter::message_contents(messages),
            later,
        );
    assert((after@, result) == limits.checked(
        before@,
        request,
        participants,
        blocking,
        now,
        Seq::empty(),
        later,
    ));
}

/// What is heard while a channel is listened to until it closes: the messages,
/// one after the other, and last of all the error.
pub proof fn law_messages_are_the_replies_in_order(
    before: Seq<Reply>,
    after: Seq<Reply>,
    messages: Seq<Vec<LeaseTable>>,
)
    requires
        crate::channel::told(before, after, messages),
    ensures
        before.len() + messages.len() <= after.len(),
        after.take(before.len() as int) == before,
        forall|i: int|
            0 <= i < messages.len() ==> after[before.len() + i] == Ok::<
                Vec<LeaseTable>,
                crossbeam::channel::RecvError,
            >(#[trigger] messages[i]),
        messages.len() < usize::MAX ==> after.len() == before.len() + messages.len() + 1
            && after[after.len() - 1] is Err,
{
    assert(after.take(before.len() as int) =~= before);
}

/// The last state counts. Where a blocking check needs a sync, the limiter hears
/// reply after reply until one is an error. If that is the first one, the check
/// fails; otherwise it is decided on the very last state before the error, and on
/// none of the earlier ones.
pub proof fn law_last_state_counts(
    before: RateLimiter,
    request: RateLimitRequest,
    after: RateLimiter,
    result: Result<RateLimitResponse, RateLimitError>,
)
    requires
        before.check_leads_to(request, true, after, result),
        request.sender !is Node,
        share::needs_sync(
            before.spec_limits().spec_max_limit(request.sender),
            request.request_data.spec_credits_needed() as u64,
            before.spec_participants(),
        ),
        after.spec_heard().len() - before.spec_heard().len() < usize::MAX,
    ensures
        ({
            let known = before.spec_heard().len() as int;
            let heard = after.spec_heard();
            let last = heard.len() - 1;
            &&& known <= last
            &&& heard.take(known) == before.spec_heard()
            &&& heard[last] is Err
            &&& forall|i: int| known <= i < last ==> (#[trigger] heard[i]) is Ok
            &&& result is Err <==> known == last
            &&& known < last ==> exists|now: Instant, later: Instant|
                before.spec_clock().may_read(now) && before.spec_clock().may_read(later) && (
                    after@,
                    result,
                ) == #[trigger] before.spec_limits().checked(
                    before@,
                    request,
                    before.spec_participants(),
                    true,
                    now,
                    seq![leases::contents(heard[last - 1]->Ok_0@)],
                    later,
                )
        }),
{
    let limits = before.spec_limits();
    let participants = before.spec_participants();
    let heard = after.spec_heard();
    let known = before.spec_heard().len() as int;
    let (now, messages, later) = choose|
        now: Instant,
        messages: Seq<Vec<LeaseTable>>,
        later: Instant,
    |
        before.readings_and_messages(request, true, now, messages, later) && before.hears_only(
            request,
            true,
            messages,
            after.spec_heard(),
        ) && (after@, result) == #[trigger] limits.checked(
            before@,
            request,
            participants,
            true,
            now,
            limiter::message_contents(messages),
            later,
        );
    law_messages_are_the_replies_in_order(before.spec_heard(), heard, messages);
    let last = heard.len() - 1;
    assert(last == known + messages.len());
    assert forall|i: int| known <= i < last implies (#[trigger] heard[i]) is Ok by {
        let message = messages[i - known];
        assert(heard[known + (i - known)]->Ok_0 == message);
    }
    law_only_silence_is_an_error(
        limits,
        before@,
        request,
        participants,
        true,
        now,
        limiter::message_contents(messages),
        later,
    );
    if messages.len() > 0 {
        let n = messages.len() - 1;
        assert(heard[known + n]->Ok_0 == messages[n]);
        assert(limiter::message_contents(messages).last() == leases::contents(messages[n]@));
        let alone = seq![leases::contents(heard[last - 1]->Ok_0@)];
        assert(alone.last() == limiter::message_contents(messages).last());
        assert((after@, result) == limits.checked(
            before@,
            request,
            participants,
            true,
            now,
            alone,
            later,
        ));
    }
}

/// What messages hold is what each of their tables holds, in order.
pub proof fn law_message_contents(messages: Seq<Vec<LeaseTable>>)
    ensures
        limiter::message_contents(messages).len() == messages.len(),
        forall|i: int, j: int|
            0 <= i < messages.len() && 0 <= j < messages[i]@.len()
                ==> #[trigger] limiter::message_contents(messages)[i][j] == messages[i]@[j]@,
        forall|i: int|
            0 <= i < messages.len() ==> (#[trigger] limiter::message_contents(messages)[i]).len()
                == messages[i]@.len(),
{
}

/// A limiter that counts anybody among its participants, and whose refill window
/// has at least a millisecond, can check every request; one of another node can
/// always be checked.
pub proof fn law_every_request_can_be_checked(
    limiter: RateLimiter,
    request: RateLimitRequest,
    blocking: bool,
)
    requires
        request.sender is Node || (limiter.spec_participants() >= 1 && 1_000_000 <= 1_000_000_000
            * limiter.spec_limits().interval.secs + limiter.spec_limits().interval.nanos),
    ensures
        limiter.can_check(request, blocking),
{
}

/// A sender that is new to the limiter can be checked whatever the window, unless
/// a sync has to be waited for.
pub proof fn law_new_senders_can_be_checked(
    limiter: RateLimiter,
    request: RateLimitRequest,
    blocking: bool,
)
    requires
        limiter.spec_participants() >= 1,
        !limiter@.contains_key(request.sender),
        !blocking || limiter.spec_participants() == 1,
    ensures
        limiter.can_check(request, blocking),
{
}

/// A bucket can be brought up to date up to its deadline, and past it where the
/// refill window has at least a millisecond, as long as an instant can hold the
/// next deadline.
pub proof fn law_every_bucket_can_be_updated(
    limits: Limits,
    table: Map<Sender, Bucket>,
    sender: Sender,
    now: Instant,
)
    requires
        ({
            let length = 1_000_000_000 * limits.interval.secs + limits.interval.nanos;
            ||| !table.contains_key(sender)
            ||| now.nanos <= table[sender].1.nanos
            ||| 1_000_000 <= length && now.nanos + length <= u128::MAX
        }),
    ensures
        limits.can_update(table, sender, now),
{
    if table.contains_key(sender) && now.nanos > table[sender].1.nanos {
        bucket_laws::law_drained_deadline_is_ahead(table[sender].1, now, limits.interval);
    }
}

/// Decided without waiting, a request is granted exactly when its sender has
/// the credits once its bucket is up to date, and the answer tells what is
/// left: the rest after the charge, or all of it after a refusal.
pub proof fn law_granted_when_credits_suffice(
    limits: Limits,
    table: Map<Sender, Bucket>,
    request: RateLimitRequest,
    participants: u64,
    now: Instant,
    received: Seq<Seq<Map<Sender, Bucket>>>,
    later: Instant,
)
    ensures
        ({
            let available = limits.up_to_date(table, request.sender, now).0;
            let cost = request.request_data.spec_credits_needed();
            let (_, result) = limits.checked(
                table,
                request,
                participants,
                false,
                now,
                received,
                later,
            );
            &&& result matches Ok(response)
            &&& response.approved <==> cost <= available
            &&& response.remaining_credits == limiter::low_bits(
                if cost <= available {
                    available - cost
                } else {
                    available as int
                },
            )
            &&& cost <= available && available - cost <= 0xffff_ffff ==> response.remaining_credits
                == available - cost
            &&& cost > available && available <= 0xffff_ffff ==> response.remaining_credits
                == available
        }),
{
    let cost = request.request_data.spec_credits_needed();
    assert(0 <= cost <= u32::MAX);
}

/// A sender that is new to a node has the initial credits, as far as its limit
/// allows them.
pub proof fn law_new_sender_starts_with_the_initial_credits(
    limits: Limits,
    table: Map<Sender, Bucket>,
    sender: Sender,
    now: Instant,
)
    requires
        !table.contains_key(sender),
    ensures
        limits.up_to_date(table, sender, now) == (
            bucket::min_int(
                limits.initial as int,
                limits.spec_max_limit(sender) as int,
            ) as u64,
            now,
        ),
        limits.up_to_date(table, sender, now).0 == (if limits.initial
            <= limits.spec_max_limit(sender) {
            limits.initial
        } else {
            limits.spec_max_limit(sender)
        }),
{
}

/// A clean-up forgets: a sender whose bucket it dropped starts anew.
pub proof fn law_gc_makes_senders_new(
    limits: Limits,
    table: Map<Sender, Bucket>,
    cutoff: Instant,
    sender: Sender,
    now: Instant,
)
    requires
        table.contains_key(sender),
        table[sender].1.nanos < cutoff.nanos,
    ensures
        limits.up_to_date(leases::kept_since(table, cutoff), sender, now) == (
            limits.spec_initial_balance(sender),
            now,
        ),
{
}

/// Where no sync is due it makes no difference whether the caller would wait.
pub proof fn law_waiting_matters_only_for_syncs(
    limits: Limits,
    table: Map<Sender, Bucket>,
    request: RateLimitRequest,
    participants: u64,
    now: Instant,
    received: Seq<Seq<Map<Sender, Bucket>>>,
    later: Instant,
)
    requires
        !share::needs_sync(
            limits.spec_max_limit(request.sender),
            request.request_data.spec_credits_needed() as u64,
            participants,
        ),
    ensures
        limits.checked(table, request, participants, true, now, received, later) == limits.checked(
            table,
            request,
            participants,
            false,
            now,
            received,
            later,
        ),
{
}

/// Decided without waiting, a request leaves the buckets of all other senders
/// as they are.
pub proof fn law_senders_do_not_interfere(
    limits: Limits,
    table: Map<Sender, Bucket>,
    request: RateLimitRequest,
    participants: u64,
    now: Instant,
    received: Seq<Seq<Map<Sender, Bucket>>>,
    later: Instant,
    other: Sender,
)
    requires
        other != request.sender,
    ensures
        ({
            let (after, _) = limits.checked(
                table,
                request,
                participants,
                false,
                now,
                received,
                later,
            );
            &&& after.contains_key(other) == table.contains_key(other)
            &&& table.contains_key(other) ==> after[other] == table[other]
        }),
{
}

/// A request that is refused without waiting costs nothing: the sender's
/// bucket is brought up to date and otherwise left alone.
pub proof fn law_refused_request_costs_nothing(
    limits: Limits,
    table: Map<Sender, Bucket>,
    request: RateLimitRequest,
    participants: u64,
    now: Instant,
    received: Seq<Seq<Map<Sender, Bucket>>>,
    later: Instant,
)
    requires
        limits.checked(table, request, participants, false, now, received, later).1 matches Ok(
            response,
        ) && !response.approved,
    ensures
        limits.checked(table, request, participants, false, now, received, later).0 == table.insert(
            request.sender,
            limits.up_to_date(table, request.sender, now),
        ),
{
}

/// Decided after a sync, a request is granted exactly when the joined bucket of
/// its sender holds the credits, and is charged to that bucket. A refusal
/// leaves the synced table alone, and tells what the sender had before the sync.
pub proof fn law_synced_request_meets_the_joined_bucket(
    limits: Limits,
    table: Map<Sender, Bucket>,
    request: RateLimitRequest,
    participants: u64,
    now: Instant,
    received: Seq<Seq<Map<Sender, Bucket>>>,
    later: Instant,
)
    requires
        share::needs_sync(
            limits.spec_max_limit(request.sender),
            request.request_data.spec_credits_needed() as u64,
            participants,
        ),
        received.len() > 0,
    ensures
        ({
            let sender = request.sender;
            let cost = request.request_data.spec_credits_needed();
            let before = limits.up_to_date(table, sender, now);
            let synced = limits.merge_all(received.last().push(table.insert(sender, before)));
            let (after, result) = limits.checked(
                table,
                request,
                participants,
                true,
                now,
                received,
                later,
            );
            &&& synced.contains_key(sender)
            &&& result matches Ok(response)
            &&& response.approved <==> cost <= synced[sender].0
            &&& if cost <= synced[sender].0 {
                &&& response.remaining_credits == limiter::low_bits(synced[sender].0 - cost)
                &&& synced[sender].0 - cost <= 0xffff_ffff ==> response.remaining_credits
                    == synced[sender].0 - cost
                &&& after == synced.insert(
                    sender,
                    leases::charged(synced[sender], cost as u64, later, limits.interval),
                )
            } else {
                &&& response.remaining_credits == limiter::low_bits(before.0 as int)
                &&& before.0 <= 0xffff_ffff ==> response.remaining_credits == before.0
                &&& after == synced
            }
        }),
{
    let sender = request.sender;
    let cost = request.request_data.spec_credits_needed();
    assert(0 <= cost <= u32::MAX);
    let updated = table.insert(sender, limits.up_to_date(table, sender, now));
    let tables = received.last().push(updated);
    lease_laws::law_merge_knows_every_sender(limits, tables, sender);
    assert(tables[received.last().len() as int].contains_key(sender));
}

/// A request goes without an answer exactly when it waits for a sync and no
/// state comes. Its sender's bucket is then brought up to date, and nothing is
/// charged.
pub proof fn law_only_silence_is_an_error(
    limits: Limits,
    table: Map<Sender, Bucket>,
    request: RateLimitRequest,
    participants: u64,
    blocking: bool,
    now: Instant,
    received: Seq<Seq<Map<Sender, Bucket>>>,
    later: Instant,
)
    ensures
        ({
            let (after, result) = limits.checked(
                table,
                request,
                participants,
                blocking,
                now,
                received,
                later,
            );
            &&& result is Err <==> blocking && received.len() == 0 && share::needs_sync(
                limits.spec_max_limit(request.sender),
                request.request_data.spec_credits_needed() as u64,
                participants,
            )
            &&& result is Err ==> after == table.insert(
                request.sender,
                limits.up_to_date(table, request.sender, now),
            )
        }),
{
}

/// No decision lifts a balance above its limit, whether the other nodes were
/// heard or not, as long as they obey the same limits.
pub proof fn law_checks_stay_within_limits(
    limits: Limits,
    table: Map<Sender, Bucket>,
    request: RateLimitRequest,
    participants: u64,
    blocking: bool,
    now: Instant,
    received: Seq<Seq<Map<Sender, Bucket>>>,
    later: Instant,
)
    requires
        limits.interval.spec_millis() > 0,
        lease_laws::within_limits(limits, table),
        received.len() > 0 ==> forall|i: int|
            0 <= i < received.last().len() ==> lease_laws::within_limits(
                limits,
                #[trigger] received.last()[i],
            ),
    ensures
        lease_laws::within_limits(
            limits,
            limits.checked(table, request, participants, blocking, now, received, later).0,
        ),
{
    let sender = request.sender;
    let max = limits.spec_max_limit(sender);
    let (credits, deadline) = leases::bucket_or(
        table,
        sender,
        (limits.spec_initial_balance(sender), now),
    );
    bucket_laws::law_drain_stays_in_bounds(
        credits,
        deadline,
        now,
        limits.interval,
        max,
        limits.refill_amount,
    );
    let updated = table.insert(sender, limits.up_to_date(table, sender, now));
    assert(lease_laws::within_limits(limits, updated));
    if received.len() > 0 {
        let tables = received.last().push(updated);
        assert forall|i: int| 0 <= i < tables.len() implies lease_laws::within_limits(
            limits,
            #[trigger] tables[i],
        ) by {
            if i < received.last().len() {
                assert(tables[i] == received.last()[i]);
            }
        }
        lease_laws::law_merge_stays_within_limits(limits, tables);
        lease_laws::law_merge_knows_every_sender(limits, tables, sender);
        assert(tables[received.last().len() as int].contains_key(sender));
    }
}

/// A request that a limiter is asked to decide, whether its caller would wait
/// for a sync, and the two readings of the clock that go into the decision. No
/// other node says anything meanwhile.
pub struct Attempt {
    pub request: RateLimitRequest,
    pub blocking: bool,
    pub now: Instant,
    pub later: Instant,
}

/// What one attempt does to the table, and its answer.
pub open spec fn attempted(
    limits: Limits,
    table: Map<Sender, Bucket>,
    participants: u64,
    attempt: Attempt,
) -> (Map<Sender, Bucket>, Result<RateLimitResponse, RateLimitError>) {
    if attempt.request.sender is Node {
        (table, Ok(limiter::node_response()))
    } else {
        limits.checked(
            table,
            attempt.request,
            participants,
            attempt.blocking,
            attempt.now,
            Seq::empty(),
            attempt.later,
        )
    }
}

/// The table after all of `attempts`.
pub open spec fn table_after(
    limits: Limits,
    table: Map<Sender, Bucket>,
    participants: u64,
    attempts: Seq<Attempt>,
) -> Map<Sender, Bucket>
    decreases attempts.len(),
{
    if attempts.len() == 0 {
        table
    } else {
        attempted(
            limits,
            table_after(limits, table, participants, attempts.drop_last()),
            participants,
            attempts.last(),
        ).0
    }
}

/// The credits of the requests of `sender` that were granted among `attempts`.
pub open spec fn credits_granted(
    limits: Limits,
    table: Map<Sender, Bucket>,
    participants: u64,
    attempts: Seq<Attempt>,
    sender: Sender,
) -> int
    decreases attempts.len(),
{
    if attempts.len() == 0 {
        0
    } else {
        let before = attempts.drop_last();
        let last = attempts.last();
        let (_, result) = attempted(
            limits,
            table_after(limits, table, participants, before),
            participants,
            last,
        );
        credits_granted(limits, table, participants, before, sender) + (if last.request.sender
            == sender && result is Ok && result->Ok_0.approved {
            last.request.request_data.spec_credits_needed()
        } else {
            0
        })
    }
}

/// What a bucket can pay until `end`: the credits it holds, and those that fall
/// due from its deadline on.
pub open spec fn worth(limits: Limits, held: Bucket, end: Instant) -> int {
    held.0 + bucket::windows_since(held.1, end, limits.interval) * limits.refill_amount
}

/// The attempts lie between `start` and `end`, and their deadlines are ones
/// that an instant can hold.
pub open spec fn lie_between(
    limits: Limits,
    attempts: Seq<Attempt>,
    start: Instant,
    end: Instant,
) -> bool {
    forall|i: int|
        0 <= i < attempts.len() ==> {
            &&& start.nanos <= (#[trigger] attempts[i]).now.nanos <= end.nanos
            &&& attempts[i].now.nanos + limits.interval.spec_nanos() <= u128::MAX
            &&& attempts[i].later.nanos + limits.interval.spec_nanos() <= u128::MAX
        }
}

/// The limit holds over time. However many requests a sender makes until
/// `end`, and whatever others do in between, those that are granted cost no
/// more than its bucket was worth at the beginning: the credits it held and
/// the refills that fell due. For a sender that was not known, that is its
/// initial balance and the refills since `start`. This is what a node grants on its own;
/// the buckets of other nodes, once they are joined, come on top.
pub proof fn law_granted_credits_are_bounded(
    limits: Limits,
    table: Map<Sender, Bucket>,
    participants: u64,
    attempts: Seq<Attempt>,
    sender: Sender,
    start: Instant,
    end: Instant,
)
    requires
        limits.interval.spec_millis() > 0,
        sender !is Node,
        lie_between(limits, attempts, start, end),
    ensures
        credits_granted(limits, table, participants, attempts, sender) <= worth(
            limits,
            leases::bucket_or(table, sender, (limits.spec_initial_balance(sender), start)),
            end,
        ),
{
    lemma_granted_and_left(limits, table, participants, attempts, sender, start, end);
    let after = table_after(limits, table, participants, attempts);
    let first = leases::bucket_or(table, sender, (limits.spec_initial_balance(sender), start));
    bucket_laws::lemma_windows_nonnegative(first.1, end, limits.interval);
    lemma_mul_nonnegative(
        bucket::windows_since(first.1, end, limits.interval),
        limits.refill_amount as int,
    );
    if after.contains_key(sender) {
        let left = after[sender];
        bucket_laws::lemma_windows_nonnegative(left.1, end, limits.interval);
        lemma_mul_nonnegative(
            bucket::windows_since(left.1, end, limits.interval),
            limits.refill_amount as int,
        );
    }
}

/// One of several nodes: its limits, and what it was asked to decide.
pub struct NodeHistory {
    pub limits: Limits,
    pub participants: u64,
    pub attempts: Seq<Attempt>,
}

/// The credits that all nodes together granted to a sender that was new to each
/// of them.
pub open spec fn credits_granted_by_all(nodes: Seq<NodeHistory>, sender: Sender) -> int
    decreases nodes.len(),
{
    if nodes.len() == 0 {
        0
    } else {
        let node = nodes.last();
        credits_granted_by_all(nodes.drop_last(), sender) + credits_granted(
            node.limits,
            Map::empty(),
            node.participants,
            node.attempts,
            sender,
        )
    }
}

/// The sum of the largest balances that `sender` can have at each node.
pub open spec fn sum_of_limits(nodes: Seq<NodeHistory>, sender: Sender) -> int
    decreases nodes.len(),
{
    if nodes.len() == 0 {
        0
    } else {
        sum_of_limits(nodes.drop_last(), sender) + nodes.last().limits.spec_max_limit(sender)
    }
}

/// The sum of the balances that `sender` starts with at each node.
pub open spec fn sum_of_initial_balances(nodes: Seq<NodeHistory>, sender: Sender) -> int
    decreases nodes.len(),
{
    if nodes.len() == 0 {
        0
    } else {
        sum_of_initial_balances(nodes.drop_last(), sender)
            + nodes.last().limits.spec_initial_balance(sender)
    }
}

/// The sum of what each node adds in one refill.
pub open spec fn sum_of_refills(nodes: Seq<NodeHistory>) -> int
    decreases nodes.len(),
{
    if nodes.len() == 0 {
        0
    } else {
        sum_of_refills(nodes.drop_last()) + nodes.last().limits.refill_amount
    }
}

/// Nodes that divide a limit among themselves keep it without ever syncing:
/// whichever of them a sender turns to, and however often, all of them together
/// grant it no more than one bucket would have paid for since `start` that began
/// with all their initial balances, at most all their limits, and was refilled by
/// all their refills.
pub proof fn law_divided_limits_hold_together(
    nodes: Seq<NodeHistory>,
    sender: Sender,
    interval: Duration,
    start: Instant,
    end: Instant,
)
    requires
        interval.spec_millis() > 0,
        sender !is Node,
        forall|i: int|
            0 <= i < nodes.len() ==> (#[trigger] nodes[i]).limits.interval == interval
                && lie_between(nodes[i].limits, nodes[i].attempts, start, end),
    ensures
        credits_granted_by_all(nodes, sender) <= sum_of_initial_balances(nodes, sender)
            + bucket::windows_since(start, end, interval) * sum_of_refills(nodes),
        sum_of_initial_balances(nodes, sender) <= sum_of_limits(nodes, sender),
    decreases nodes.len(),
{
    let windows = bucket::windows_since(start, end, interval);
    if nodes.len() > 0 {
        let rest = nodes.drop_last();
        let node = nodes.last();
        assert(nodes[nodes.len() - 1] == node);
        assert forall|i: int| 0 <= i < rest.len() implies (#[trigger] rest[i]).limits.interval
            == interval && lie_between(rest[i].limits, rest[i].attempts, start, end) by {
            assert(rest[i] == nodes[i]);
        }
        law_divided_limits_hold_together(rest, sender, interval, start, end);
        law_granted_credits_are_bounded(
            node.limits,
            Map::empty(),
            node.participants,
            node.attempts,
            sender,
            start,
            end,
        );
        lemma_mul_is_distributive_add(
            windows,
            sum_of_refills(rest),
            node.limits.refill_amount as int,
        );
    }
}

/// What was granted, and what the bucket is still worth, is together no more
/// than what it was worth at the beginning.
proof fn lemma_granted_and_left(
    limits: Limits,
    table: Map<Sender, Bucket>,
    participants: u64,
    attempts: Seq<Attempt>,
    sender: Sender,
    start: Instant,
    end: Instant,
)
    requires
        limits.interval.spec_millis() > 0,
        sender !is Node,
        lie_between(limits, attempts, start, end),
    ensures
        ({
            let after = table_after(limits, table, participants, attempts);
            let granted = credits_granted(limits, table, participants, attempts, sender);
            let first = leases::bucket_or(table, sender, (limits.spec_initial_balance(sender), start));
            if after.contains_key(sender) {
                granted + worth(limits, after[sender], end) <= worth(limits, first, end)
            } else {
                granted == 0 && !table.contains_key(sender)
            }
        }),
    decreases attempts.len(),
{
    if attempts.len() > 0 {
        let before = attempts.drop_last();
        let last = attempts.last();
        assert(attempts[attempts.len() - 1] == last);
        assert(lie_between(limits, before, start, end)) by {
            assert forall|i: int| 0 <= i < before.len() implies {
                &&& start.nanos <= (#[trigger] before[i]).now.nanos <= end.nanos
                &&& before[i].now.nanos + limits.interval.spec_nanos() <= u128::MAX
                &&& before[i].later.nanos + limits.interval.spec_nanos() <= u128::MAX
            } by {
                assert(before[i] == attempts[i]);
            }
        }
        lemma_granted_and_left(limits, table, participants, before, sender, start, end);
        let now_table = table_after(limits, table, participants, before);
        if last.request.sender == sender {
            let fresh = (limits.spec_initial_balance(sender), last.now);
            let held = leases::bucket_or(now_table, sender, fresh);
            lemma_attempt_is_paid_for(limits, now_table, last, end);
            if !now_table.contains_key(sender) {
                bucket_laws::lemma_windows_monotonic(start, last.now, end, limits.interval);
                lemma_mul_inequality(
                    bucket::windows_since(last.now, end, limits.interval),
                    bucket::windows_since(start, end, limits.interval),
                    limits.refill_amount as int,
                );
            }
        }
    }
}

/// One attempt takes from what the bucket is worth at least what it is granted.
proof fn lemma_attempt_is_paid_for(
    limits: Limits,
    table: Map<Sender, Bucket>,
    attempt: Attempt,
    end: Instant,
)
    requires
        limits.interval.spec_millis() > 0,
        attempt.request.sender !is Node,
        attempt.now.nanos <= end.nanos,
        attempt.now.nanos + limits.interval.spec_nanos() <= u128::MAX,
        attempt.later.nanos + limits.interval.spec_nanos() <= u128::MAX,
    ensures
        forall|participants: u64|
            {
                let sender = attempt.request.sender;
                let (after, result) = #[trigger] attempted(limits, table, participants, attempt);
                let held = leases::bucket_or(
                    table,
                    sender,
                    (limits.spec_initial_balance(sender), attempt.now),
                );
                &&& after.contains_key(sender)
                &&& (if result is Ok && result->Ok_0.approved {
                    attempt.request.request_data.spec_credits_needed()
                } else {
                    0
                }) + worth(limits, after[sender], end) <= worth(limits, held, end)
            },
{
    let sender = attempt.request.sender;
    let held = leases::bucket_or(
        table,
        sender,
        (limits.spec_initial_balance(sender), attempt.now),
    );
    let drained = limits.up_to_date(table, sender, attempt.now);
    let cost = attempt.request.request_data.spec_credits_needed();
    let interval = limits.interval;
    let refill = limits.refill_amount as int;
    if attempt.now.nanos > held.1.nanos {
        bucket_laws::law_drained_deadline_is_ahead(held.1, attempt.now, interval);
    }
    let earned = bucket::windows_since(held.1, attempt.now, interval);
    let due = bucket::windows_since(drained.1, end, interval);
    let all = bucket::windows_since(held.1, end, interval);
    bucket_laws::lemma_windows_nonnegative(held.1, attempt.now, interval);
    lemma_mul_nonnegative(earned, refill);
    assert(drained.1.nanos == bucket::drained_deadline(held.1, attempt.now, interval));
    assert(drained.0 <= held.0 + earned * refill);
    bucket_laws::law_windows_are_not_counted_twice(held.1, attempt.now, drained.1, end, interval);
    lemma_mul_inequality(earned + due, all, refill);
    lemma_mul_is_distributive_add_other_way(refill, earned, due);
    assert(worth(limits, drained, end) <= worth(limits, held, end));
    if cost <= drained.0 {
        let paid = leases::charged(drained, cost as u64, attempt.later, interval);
        bucket_laws::lemma_windows_monotonic(drained.1, paid.1, end, interval);
        lemma_mul_inequality(bucket::windows_since(paid.1, end, interval), due, refill);
    }
}

} // verus!
