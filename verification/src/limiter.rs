//! The rate limiter: it decides about requests, on its own or after it has
//! heard from the other nodes.

use vstd::prelude::*;

use crate::bucket;
use crate::bucket::{drain_bucket, Bucket};
use crate::channel::receive_until_closed;
use crate::leases;
use crate::leases::{Leaser, Limits};
use crate::listener::{Listener, Reply};
use crate::request::{RateLimitRequest, RateLimitResponse, Sender};
use crate::share;
use crate::share::sync_necessary;
use crate::table::LeaseTable;
use crate::time;
use crate::time::{Clock, Instant};

verus! {

/// Why a request could not be decided.
#[derive(Clone, Copy, Debug, PartialEq, Eq)]
pub enum RateLimitError {
    /// The other nodes had to be heard, and their channel was closed before
    /// any state came through it.
    SyncChannelDisconnected,
}

/// What is known of a request before it is decided: what it costs, the most
/// its sender can have, what its sender has now, and whether the nodes have to
/// sync first.
#[derive(Clone, Copy, Debug)]
pub struct Assessment {
    pub credits_needed: u64,
    pub max_balance: u64,
    pub current_credits: u64,
    pub sync_needed: bool,
}

impl Limits {
    /// The bucket of `sender` brought up to date at `now`. A sender without a
    /// bucket starts with its initial balance.
    pub open spec fn up_to_date(
        self,
        table: Map<Sender, Bucket>,
        sender: Sender,
        now: Instant,
    ) -> Bucket {
        let max_balance = self.spec_max_limit(sender);
        let (credits, deadline) = leases::bucket_or(
            table,
            sender,
            (self.spec_initial_balance(sender), now),
        );
        (
            bucket::drained_credits(
                credits as int,
                deadline,
                now,
                self.interval,
                max_balance as int,
                self.refill_amount as int,
            ) as u64,
            Instant { nanos: bucket::drained_deadline(deadline, now, self.interval) as u128 },
        )
    }

    /// The bucket of `sender` can be brought up to date at `now`: past its
    /// deadline refills have a window to be counted in, and the next deadline is
    /// one that an instant can hold.
    pub open spec fn can_update(
        self,
        table: Map<Sender, Bucket>,
        sender: Sender,
        now: Instant,
    ) -> bool {
        let (_, deadline) = leases::bucket_or(
            table,
            sender,
            (self.spec_initial_balance(sender), now),
        );
        &&& now.nanos > deadline.nanos ==> self.interval.spec_millis() > 0
        &&& bucket::drained_deadline(deadline, now, self.interval) <= u128::MAX
    }

    /// What is known of `request` at `now`.
    pub open spec fn assessment(
        self,
        table: Map<Sender, Bucket>,
        request: RateLimitRequest,
        participants: u64,
        now: Instant,
    ) -> Assessment {
        let credits_needed = request.request_data.spec_credits_needed() as u64;
        let max_balance = self.spec_max_limit(request.sender);
        Assessment {
            credits_needed,
            max_balance,
            current_credits: self.up_to_date(table, request.sender, now).0,
            sync_needed: share::needs_sync(max_balance, credits_needed, participants),
        }
    }

    /// The table after `request`, which costs what `assessed` says, was decided
    /// at `now`: the bucket is charged if it holds enough.
    pub open spec fn table_decided(
        self,
        table: Map<Sender, Bucket>,
        request: RateLimitRequest,
        assessed: Assessment,
        now: Instant,
    ) -> Map<Sender, Bucket> {
        let held = table[request.sender];
        if assessed.credits_needed > held.0 {
            table
        } else {
            table.insert(
                request.sender,
                leases::charged(held, assessed.credits_needed, now, self.interval),
            )
        }
    }

    /// A request and everything that went into its decision, as one step from
    /// a table to the next and an answer. `now` is the moment when the request
    /// came in, `later` the one when it was charged, and `received` what the
    /// other nodes sent in between if they were waited for.
    pub open spec fn checked(
        self,
        table: Map<Sender, Bucket>,
        request: RateLimitRequest,
        participants: u64,
        blocking: bool,
        now: Instant,
        received: Seq<Seq<Map<Sender, Bucket>>>,
        later: Instant,
    ) -> (Map<Sender, Bucket>, Result<RateLimitResponse, RateLimitError>) {
        let assessed = self.assessment(table, request, participants, now);
        let updated = table.insert(request.sender, self.up_to_date(table, request.sender, now));
        if blocking && assessed.sync_needed && received.len() == 0 {
            (updated, Err(RateLimitError::SyncChannelDisconnected))
        } else {
            let synced = if blocking && assessed.sync_needed {
                self.merge_all(received.last().push(updated))
            } else {
                updated
            };
            (
                self.table_decided(synced, request, assessed, later),
                Ok(decision(synced[request.sender], assessed)),
            )
        }
    }
}

/// The low 32 bits of a number of credits.
pub open spec fn low_bits(credits: int) -> u32 {
    (credits % 0x1_0000_0000) as u32
}

/// The answer to a request that meets the bucket `held`. A request that is
/// granted is told what is left; one that is refused is told what its sender
/// had when it came in.
pub open spec fn decision(held: Bucket, assessed: Assessment) -> RateLimitResponse {
    if assessed.credits_needed > held.0 {
        RateLimitResponse {
            approved: false,
            remaining_credits: low_bits(assessed.current_credits as int),
        }
    } else {
        RateLimitResponse {
            approved: true,
            remaining_credits: low_bits(held.0 - assessed.credits_needed),
        }
    }
}

/// The answer to every request of another node.
pub open spec fn node_response() -> RateLimitResponse {
    RateLimitResponse { approved: true, remaining_credits: u32::MAX }
}

/// What each of the messages holds.
pub open spec fn message_contents(messages: Seq<Vec<LeaseTable>>) -> Seq<
    Seq<Map<Sender, Bucket>>,
> {
    messages.map_values(|message: Vec<LeaseTable>| leases::contents(message@))
}

/// A rate limiter for the requests that one node receives.
pub struct RateLimiter {
    leases: Leaser,
    /// The number of nodes that share the limits. It may change between
    /// requests, as nodes join and leave.
    pub participants: u64,
    sync_channel: Listener,
}

impl View for RateLimiter {
    type V = Map<Sender, Bucket>;

    closed spec fn view(&self) -> Map<Sender, Bucket> {
        self.leases@
    }
}

impl RateLimiter {
    pub closed spec fn spec_limits(self) -> Limits {
        self.leases.spec_limits()
    }

    pub closed spec fn spec_node_id(self) -> u64 {
        self.leases.spec_node_id()
    }

    pub closed spec fn spec_epoch(self) -> Instant {
        self.leases.spec_epoch()
    }

    pub closed spec fn spec_clock(self) -> Clock {
        self.leases.spec_clock()
    }

    pub closed spec fn spec_participants(self) -> u64 {
        self.participants
    }

    pub closed spec fn spec_sync_channel(self) -> crossbeam::channel::Receiver<Vec<LeaseTable>> {
        self.sync_channel.spec_channel()
    }

    /// What the limiter has heard from the other nodes so far.
    pub closed spec fn spec_heard(self) -> Seq<Reply> {
        self.sync_channel.heard()
    }

    /// Two limiters that differ in their buckets, and in what they have heard, at
    /// most.
    pub open spec fn same_settings(self, other: RateLimiter) -> bool {
        &&& self.spec_limits() == other.spec_limits()
        &&& self.spec_node_id() == other.spec_node_id()
        &&& self.spec_epoch() == other.spec_epoch()
        &&& self.spec_clock() == other.spec_clock()
        &&& self.spec_participants() == other.spec_participants()
        &&& self.spec_sync_channel() == other.spec_sync_channel()
    }

    /// A limiter without buckets.
    pub(crate) fn assemble(
        leases: Leaser,
        participants: u64,
        sync_channel: Listener,
    ) -> (limiter: Self)
        ensures
            limiter@ == leases@,
            limiter.spec_limits() == leases.spec_limits(),
            limiter.spec_node_id() == leases.spec_node_id(),
            limiter.spec_epoch() == leases.spec_epoch(),
            limiter.spec_clock() == leases.spec_clock(),
            limiter.spec_participants() == participants,
            limiter.spec_sync_channel() == sync_channel.spec_channel(),
            limiter.spec_heard() == sync_channel.heard(),
    {
        RateLimiter { leases, participants, sync_channel }
    }

    /// Brings the sender's bucket up to date at `now`, and finds out what there
    /// is to know of `request`.
    pub fn assess(&mut self, request: RateLimitRequest, now: Instant) -> (assessed: Assessment)
        requires
            old(self).spec_participants() > 0,
            old(self).spec_limits().can_update(old(self)@, request.sender, now),
        ensures
            final(self).same_settings(*old(self)),
            final(self).spec_heard() == old(self).spec_heard(),
            final(self)@ == old(self)@.insert(
                request.sender,
                old(self).spec_limits().up_to_date(old(self)@, request.sender, now),
            ),
            assessed == old(self).spec_limits().assessment(
                old(self)@,
                request,
                old(self).spec_participants(),
                now,
            ),
    {
        let credits_needed: u64 = request.request_data.credits_needed();
        let max_balance: u64 = self.leases.get_max_limit(&request.sender);
        let limits = self.leases.limits();
        let (credits, deadline) = match self.leases.table().get(&request.sender) {
            Some(held) => held,
            None => (limits.get_initial_balance(&request.sender), now),
        };
        let (current_credits, next) = drain_bucket(
            credits,
            deadline,
            now,
            limits.interval,
            max_balance,
            limits.refill_amount,
        ).unwrap();
        self.leases.record(request.sender, (current_credits, next));
        let sync_needed: bool = sync_necessary(
            max_balance,
            credits_needed,
            now,
            self.participants,
        );
        Assessment { credits_needed, max_balance, current_credits, sync_needed }
    }

    /// Takes over what the other nodes sent. Of several messages the last one
    /// counts; where there is none, nothing changes.
    pub fn adopt(&mut self, received: &Vec<Vec<LeaseTable>>) -> (adopted: Result<
        (),
        RateLimitError,
    >)
        requires
            received@.len() > 0 ==> old(self).spec_limits().can_merge(
                leases::contents(received@.last()@).push(old(self)@),
            ),
        ensures
            final(self).same_settings(*old(self)),
            final(self).spec_heard() == old(self).spec_heard(),
            received@.len() == 0 ==> adopted == Err::<(), RateLimitError>(
                RateLimitError::SyncChannelDisconnected,
            ) && final(self)@ == old(self)@,
            received@.len() > 0 ==> adopted == Ok::<(), RateLimitError>(()) && final(self)@ == old(
                self,
            ).spec_limits().merge_all(leases::contents(received@.last()@).push(old(self)@)),
    {
        if received.len() == 0 {
            return Err(RateLimitError::SyncChannelDisconnected);
        }
        self.leases.sync(received[received.len() - 1].as_slice());
        Ok(())
    }

    /// Decides an assessed request at `now`: it is granted if its sender's
    /// bucket holds the credits, which are then charged.
    pub fn decide(&mut self, request: RateLimitRequest, assessed: Assessment, now: Instant) -> (
        response: RateLimitResponse)
        requires
            old(self)@.contains_key(request.sender),
            now.nanos + old(self).spec_limits().interval.spec_nanos() <= u128::MAX,
        ensures
            final(self).same_settings(*old(self)),
            final(self).spec_heard() == old(self).spec_heard(),
            final(self)@ == old(self).spec_limits().table_decided(
                old(self)@,
                request,
                assessed,
                now,
            ),
            response == decision(old(self)@[request.sender], assessed),
    {
        let touched = self.leases.touch_at(
            request,
            (assessed.max_balance, now),
            assessed.credits_needed,
            now,
        );
        match touched {
            Some((remaining, _)) => RateLimitResponse {
                approved: true,
                remaining_credits: truncate(remaining),
            },
            None => {
                assert(self@ =~= old(self)@);
                RateLimitResponse {
                    approved: false,
                    remaining_credits: truncate(assessed.current_credits),
                }
            },
        }
    }
}

impl RateLimiter {
    /// The limiter can check `request`: it counts itself among the participants,
    /// and refills have a window to be counted in wherever any may fall due.
    /// Requests of other nodes need neither.
    pub open spec fn can_check(self, request: RateLimitRequest, blocking: bool) -> bool {
        ||| request.sender is Node
        ||| {
            &&& self.spec_participants() > 0
            &&& self.spec_limits().interval.spec_millis() > 0 || (!self@.contains_key(
                request.sender,
            ) && !(blocking && share::needs_sync(
                self.spec_limits().spec_max_limit(request.sender),
                request.request_data.spec_credits_needed() as u64,
                self.spec_participants(),
            )))
        }
    }

    /// `result` and `after` are what becomes of `request` and of this limiter
    /// for some readings of its clock and, where they are waited for, for some
    /// messages that come through its channel.
    pub open spec fn check_leads_to(
        self,
        request: RateLimitRequest,
        blocking: bool,
        after: RateLimiter,
        result: Result<RateLimitResponse, RateLimitError>,
    ) -> bool {
        &&& after.same_settings(self)
        &&& request.sender is Node ==> after.spec_heard() == self.spec_heard() && after@ == self@
            && result == Ok::<
            RateLimitResponse,
            RateLimitError,
        >(node_response())
        &&& request.sender !is Node ==> exists|
            now: Instant,
            messages: Seq<Vec<LeaseTable>>,
            later: Instant,
        |
            self.readings_and_messages(request, blocking, now, messages, later)
                && self.hears_only(request, blocking, messages, after.spec_heard()) && (
                after@,
                result,
            ) == #[trigger] self.spec_limits().checked(
                self@,
                request,
                self.spec_participants(),
                blocking,
                now,
                message_contents(messages),
                later,
            )
    }

    /// The clock of this limiter may read `now` and `later`, and where a sync is
    /// waited for, `messages` come through its channel.
    pub open spec fn readings_and_messages(
        self,
        request: RateLimitRequest,
        blocking: bool,
        now: Instant,
        messages: Seq<Vec<LeaseTable>>,
        later: Instant,
    ) -> bool {
        &&& self.spec_clock().may_read(now) && now.nanos <= time::last_reading()
        &&& self.spec_clock().may_read(later) && later.nanos <= time::last_reading()
        &&& blocking && share::needs_sync(
            self.spec_limits().spec_max_limit(request.sender),
            request.request_data.spec_credits_needed() as u64,
            self.spec_participants(),
        ) ==> crate::channel::came_through(self.spec_sync_channel(), messages)
    }

    /// Whether the limiter can check `request`.
    pub fn accepts(&self, request: &RateLimitRequest, blocking: bool) -> (accepted: bool)
        ensures
            accepted == self.can_check(*request, blocking),
    {
        if let Sender::Node(_) = request.sender {
            return true;
        }
        let limits = self.leases.limits();
        if self.participants == 0 {
            false
        } else if limits.interval.as_millis() > 0 {
            true
        } else {
            !self.leases.table().contains_key(&request.sender) && !(blocking && sync_necessary(
                limits.get_max_limit(&request.sender),
                request.request_data.credits_needed(),
                Instant { nanos: 0 },
                self.participants,
            ))
        }
    }

    /// Changes the number of nodes that share the limits, as nodes join and
    /// leave.
    pub fn set_participants(&mut self, participants: u64)
        ensures
            final(self).spec_participants() == participants,
            final(self)@ == old(self)@,
            final(self).spec_limits() == old(self).spec_limits(),
            final(self).spec_node_id() == old(self).spec_node_id(),
            final(self).spec_epoch() == old(self).spec_epoch(),
            final(self).spec_clock() == old(self).spec_clock(),
            final(self).spec_sync_channel() == old(self).spec_sync_channel(),
            final(self).spec_heard() == old(self).spec_heard(),
    {
        self.participants = participants;
    }

    /// Where a sync is waited for, what the limiter hears is `messages` and the
    /// error that ends them; otherwise it hears nothing.
    pub open spec fn hears_only(
        self,
        request: RateLimitRequest,
        blocking: bool,
        messages: Seq<Vec<LeaseTable>>,
        heard: Seq<Reply>,
    ) -> bool {
        if blocking && share::needs_sync(
            self.spec_limits().spec_max_limit(request.sender),
            request.request_data.spec_credits_needed() as u64,
            self.spec_participants(),
        ) {
            crate::channel::told(self.spec_heard(), heard, messages)
        } else {
            heard == self.spec_heard()
        }
    }

    /// Checks a request without waiting for anyone: it is decided on what this
    /// node knows, even where the nodes ought to sync.
    pub fn check_rate_limit_non_blocking(&mut self, request: RateLimitRequest) -> (result: Result<
        RateLimitResponse,
        RateLimitError,
    >)
        requires
            old(self).can_check(request, false),
        ensures
            old(self).check_leads_to(request, false, *final(self), result),
            result is Ok,
    {
        self.check_rate_limit(request, false)
    }

    /// Checks a request. Where the nodes have to sync first, the call waits
    /// until the other nodes have sent their buckets and closed the channel.
    pub fn check_rate_limit_blocking(&mut self, request: RateLimitRequest) -> (result: Result<
        RateLimitResponse,
        RateLimitError,
    >)
        requires
            old(self).can_check(request, true),
        ensures
            old(self).check_leads_to(request, true, *final(self), result),
            !share::needs_sync(
                old(self).spec_limits().spec_max_limit(request.sender),
                request.request_data.spec_credits_needed() as u64,
                old(self).spec_participants(),
            ) ==> result is Ok,
    {
        self.check_rate_limit(request, true)
    }

    fn check_rate_limit(&mut self, request: RateLimitRequest, blocking: bool) -> (result: Result<
        RateLimitResponse,
        RateLimitError,
    >)
        requires
            old(self).can_check(request, blocking),
        ensures
            old(self).check_leads_to(request, blocking, *final(self), result),
    {
        let now = self.leases.now();
        if let Sender::Node(_) = request.sender {
            return Ok(RateLimitResponse { approved: true, remaining_credits: u32::MAX });
        }
        let ghost limits = self.spec_limits();
        let ghost table = self@;
        let ghost participants = self.spec_participants();
        let ghost before = *self;
        let assessed = self.assess(request, now);
        let mut received: Vec<Vec<LeaseTable>> = Vec::new();
        if assessed.sync_needed && blocking {
            received = receive_until_closed(&mut self.sync_channel);
            if let Err(error) = self.adopt(&received) {
                assert(before.readings_and_messages(request, blocking, now, received@, now));
                assert(before.hears_only(request, blocking, received@, self.spec_heard()));
                assert((self@, Err::<RateLimitResponse, RateLimitError>(error))
                    == limits.checked(
                    table,
                    request,
                    participants,
                    blocking,
                    now,
                    message_contents(received@),
                    now,
                ));
                return Err(error);
            }
        }
        let later = self.leases.now();
        let response = self.decide(request, assessed, later);
        assert(before.readings_and_messages(request, blocking, now, received@, later));
        assert(before.hears_only(request, blocking, received@, self.spec_heard()));
        assert((self@, Ok::<RateLimitResponse, RateLimitError>(response)) == limits.checked(
            table,
            request,
            participants,
            blocking,
            now,
            message_contents(received@),
            later,
        ));
        Ok(response)
    }

    /// A copy of all buckets, to be sent to the other nodes.
    pub fn get_state(&self) -> (state: LeaseTable)
        ensures
            state@ == self@,
    {
        self.leases.table().clone()
    }

    /// Drops every bucket whose deadline is older than `epoch`.
    pub fn gc(&mut self, epoch: Instant)
        ensures
            final(self)@ == leases::kept_since(old(self)@, epoch),
            final(self).spec_epoch() == epoch,
            final(self).spec_limits() == old(self).spec_limits(),
            final(self).spec_node_id() == old(self).spec_node_id(),
            final(self).spec_clock() == old(self).spec_clock(),
            final(self).spec_participants() == old(self).spec_participants(),
            final(self).spec_sync_channel() == old(self).spec_sync_channel(),
            final(self).spec_heard() == old(self).spec_heard(),
    {
        self.leases.gc(epoch);
    }
}

/// The low 32 bits of a number of credits.
fn truncate(credits: u64) -> (low: u32)
    ensures
        low == low_bits(credits as int),
{
    (credits % 0x1_0000_0000) as u32
}

} // verus!
