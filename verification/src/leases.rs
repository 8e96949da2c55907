//! The leaser: the buckets that a node keeps, the limits that they obey, and
//! what requests, other nodes and clean-ups do to them.

use vstd::prelude::*;

use crate::bucket;
use crate::bucket::{join_buckets, Bucket};
use crate::request::{RateLimitRequest, Sender};
use crate::table;
use crate::table::LeaseTable;
use crate::time;
use crate::time::{Clock, Duration, Instant};

verus! {

/// What a node grants: the balance that a bucket starts with, the largest
/// balances, and the pace of refills.
#[derive(Clone, Copy, Debug)]
pub struct Limits {
    pub initial: u64,
    pub max_limit: u64,
    pub max_limit_payer: u64,
    pub interval: Duration,
    pub refill_amount: u64,
}

impl Limits {
    /// The largest balance that `sender` can have.
    pub open spec fn spec_max_limit(self, sender: Sender) -> u64 {
        match sender {
            Sender::Node(_) => u64::MAX,
            Sender::Payer(_) => self.max_limit_payer,
            Sender::Unknown(_) => self.max_limit,
        }
    }

    /// The balance that a new bucket of `sender` starts with: the initial
    /// credits, as far as the sender's limit allows them.
    pub open spec fn spec_initial_balance(self, sender: Sender) -> u64 {
        if self.initial <= self.spec_max_limit(sender) {
            self.initial
        } else {
            self.spec_max_limit(sender)
        }
    }

    /// The bucket that the buckets of `sender` become: one on its own stays as
    /// it is, and several are joined.
    pub open spec fn join(self, sender: Sender, buckets: Seq<Bucket>) -> Bucket {
        if buckets.len() == 1 {
            buckets[0]
        } else {
            bucket::joined_bucket(
                buckets,
                self.spec_max_limit(sender),
                self.interval,
                self.refill_amount,
            )
        }
    }

    /// All tables as one: every sender that any of them knows gets the bucket
    /// that all its buckets become together.
    pub open spec fn merge_all(self, tables: Seq<Map<Sender, Bucket>>) -> Map<Sender, Bucket> {
        Map::new(
            |sender: Sender| buckets_of(tables, sender).len() > 0,
            |sender: Sender| self.join(sender, buckets_of(tables, sender)),
        )
    }

    /// These tables can be merged: refills have a window to be counted in, or
    /// none falls due because every sender has one deadline everywhere.
    pub open spec fn can_merge(self, tables: Seq<Map<Sender, Bucket>>) -> bool {
        self.interval.spec_millis() > 0 || share_deadlines(tables)
    }

    /// The largest balance that `sender` can have.
    pub fn get_max_limit(&self, sender: &Sender) -> (limit: u64)
        ensures
            limit == self.spec_max_limit(*sender),
    {
        match sender {
            Sender::Node(_) => u64::MAX,
            Sender::Payer(_) => self.max_limit_payer,
            Sender::Unknown(_) => self.max_limit,
        }
    }

    /// The balance that a new bucket of `sender` starts with.
    pub fn get_initial_balance(&self, sender: &Sender) -> (balance: u64)
        ensures
            balance == self.spec_initial_balance(*sender),
    {
        let limit: u64 = self.get_max_limit(sender);
        if self.initial <= limit {
            self.initial
        } else {
            limit
        }
    }

    /// Joins the buckets of `sender`.
    fn join_known(&self, sender: &Sender, buckets: &Vec<Bucket>) -> (joined: Bucket)
        requires
            buckets@.len() > 0,
            self.interval.spec_millis() > 0 || bucket::share_deadline(buckets@),
        ensures
            joined == self.join(*sender, buckets@),
    {
        if buckets.len() == 1 {
            buckets[0]
        } else {
            join_buckets(
                buckets.as_slice(),
                self.get_max_limit(sender),
                self.interval,
                self.refill_amount,
            )
        }
    }
}

/// The buckets that `tables` have for `sender`, in the order of the tables.
pub open spec fn buckets_of(tables: Seq<Map<Sender, Bucket>>, sender: Sender) -> Seq<Bucket>
    decreases tables.len(),
{
    if tables.len() == 0 {
        Seq::empty()
    } else {
        let before = buckets_of(tables.drop_last(), sender);
        if tables.last().contains_key(sender) {
            before.push(tables.last()[sender])
        } else {
            before
        }
    }
}

/// The buckets of `sender` in the tables of the other nodes and in the own one,
/// which comes last.
fn collect_buckets(other: &[LeaseTable], own: &LeaseTable, sender: &Sender) -> (buckets: Vec<
    Bucket,
>)
    ensures
        buckets@ == buckets_of(contents(other@).push(own@), *sender),
{
    let ghost tables = contents(other@);
    let mut buckets: Vec<Bucket> = Vec::new();
    assert(tables.take(0) =~= Seq::<Map<Sender, Bucket>>::empty());
    for i in 0..other.len()
        invariant
            tables == contents(other@),
            buckets@ == buckets_of(tables.take(i as int), *sender),
    {
        assert(tables.take(i + 1).drop_last() =~= tables.take(i as int));
        assert(tables.take(i + 1).last() == other@[i as int]@);
        if let Some(held) = other[i].get(sender) {
            buckets.push(held);
        }
    }
    assert(tables.take(tables.len() as int) =~= tables);
    assert(tables.push(own@).drop_last() =~= tables);
    if let Some(held) = own.get(sender) {
        buckets.push(held);
    }
    buckets
}

/// Wherever two of `tables` know a sender, they give it the same deadline.
pub open spec fn share_deadlines(tables: Seq<Map<Sender, Bucket>>) -> bool {
    forall|i: int, j: int, sender: Sender|
        0 <= i < tables.len() && 0 <= j < tables.len() && #[trigger] tables[i].contains_key(sender)
            && #[trigger] tables[j].contains_key(sender) ==> tables[i][sender].1.nanos
            == tables[j][sender].1.nanos
}

/// What `tables` hold.
pub open spec fn contents(tables: Seq<LeaseTable>) -> Seq<Map<Sender, Bucket>> {
    tables.map_values(|table: LeaseTable| table@)
}

/// The bucket that a request of `sender` meets: its own, or else `fallback`.
pub open spec fn bucket_or(
    table: Map<Sender, Bucket>,
    sender: Sender,
    fallback: Bucket,
) -> Bucket {
    if table.contains_key(sender) {
        table[sender]
    } else {
        fallback
    }
}

/// A bucket after a request for `cost` credits was granted at `now`: the
/// credits are gone, and refills start one interval from `now` at the earliest.
pub open spec fn charged(held: Bucket, cost: u64, now: Instant, interval: Duration) -> Bucket {
    let ahead = now.nanos + interval.spec_nanos();
    (
        (held.0 - cost) as u64,
        Instant {
            nanos: (if held.1.nanos >= ahead {
                held.1.nanos as int
            } else {
                ahead
            }) as u128,
        },
    )
}

/// The buckets of `table` whose deadline is not older than `cutoff`.
pub open spec fn kept_since(table: Map<Sender, Bucket>, cutoff: Instant) -> Map<Sender, Bucket> {
    Map::new(
        |sender: Sender| table.contains_key(sender) && table[sender].1.nanos >= cutoff.nanos,
        |sender: Sender| table[sender],
    )
}

/// The buckets of a node's senders, and the limits that they obey.
#[derive(Debug)]
pub struct Leaser {
    table: LeaseTable,
    node_id: u64,
    limits: Limits,
    epoch: Instant,
    clock: Clock,
}

impl View for Leaser {
    type V = Map<Sender, Bucket>;

    closed spec fn view(&self) -> Map<Sender, Bucket> {
        self.table@
    }
}

impl Leaser {
    pub closed spec fn spec_limits(self) -> Limits {
        self.limits
    }

    pub closed spec fn spec_node_id(self) -> u64 {
        self.node_id
    }

    /// The moment of the last clean-up, or else of creation.
    pub closed spec fn spec_epoch(self) -> Instant {
        self.epoch
    }

    pub closed spec fn spec_clock(self) -> Clock {
        self.clock
    }

    /// Two leasers that differ in their buckets at most.
    pub open spec fn same_settings(self, other: Leaser) -> bool {
        &&& self.spec_limits() == other.spec_limits()
        &&& self.spec_node_id() == other.spec_node_id()
        &&& self.spec_epoch() == other.spec_epoch()
        &&& self.spec_clock() == other.spec_clock()
    }

    /// A leaser without buckets, whose epoch is the present moment. Nothing
    /// keeps a new bucket below its sender's limit.
    pub fn new(
        node_id: u64,
        max_limit: u64,
        max_limit_payer: u64,
        interval: Duration,
        refill_amount: u64,
        clock: Clock,
    ) -> (leaser: Self)
        ensures
            leaser@ == Map::<Sender, Bucket>::empty(),
            leaser.spec_limits() == (Limits {
                initial: u64::MAX,
                max_limit,
                max_limit_payer,
                interval,
                refill_amount,
            }),
            leaser.spec_node_id() == node_id,
            leaser.spec_clock() == clock,
            clock.may_read(leaser.spec_epoch()),
            leaser.spec_epoch().nanos <= time::last_reading(),
    {
        Leaser {
            table: LeaseTable::new(),
            node_id,
            limits: Limits {
                initial: u64::MAX,
                max_limit,
                max_limit_payer,
                interval,
                refill_amount,
            },
            epoch: clock.now(),
            clock,
        }
    }

    /// This leaser, with new buckets that start with `initial` credits, as far
    /// as their senders' limits allow.
    pub fn starting_with(self, initial: u64) -> (leaser: Self)
        ensures
            leaser@ == self@,
            leaser.spec_limits() == (Limits { initial, ..self.spec_limits() }),
            leaser.spec_node_id() == self.spec_node_id(),
            leaser.spec_epoch() == self.spec_epoch(),
            leaser.spec_clock() == self.spec_clock(),
    {
        Leaser { limits: Limits { initial, ..self.limits }, ..self }
    }

    /// The buckets of this leaser.
    pub fn table(&self) -> (table: &LeaseTable)
        ensures
            table@ == self@,
    {
        &self.table
    }

    /// Puts `held` in the place of whatever bucket `sender` had.
    pub fn record(&mut self, sender: Sender, held: Bucket)
        ensures
            final(self).same_settings(*old(self)),
            final(self)@ == old(self)@.insert(sender, held),
    {
        self.table.insert(sender, held);
    }

    /// The present moment, on the clock of this leaser.
    pub fn now(&self) -> (now: Instant)
        ensures
            self.spec_clock().may_read(now),
            now.nanos <= time::last_reading(),
    {
        self.clock.now()
    }

    /// The limits of this leaser.
    pub fn limits(&self) -> (limits: Limits)
        ensures
            limits == self.spec_limits(),
    {
        self.limits
    }

    /// The largest balance that `sender` can have.
    pub fn get_max_limit(&self, sender: &Sender) -> (limit: u64)
        ensures
            limit == self.spec_limits().spec_max_limit(*sender),
    {
        self.limits.get_max_limit(sender)
    }

    /// Charges `cost` credits to the sender's bucket, or to `default` where the
    /// sender has none yet.
    ///
    /// A bucket that holds too few credits stays as it is, and the answer is
    /// `None`. Otherwise the credits are taken and the deadline moves to one
    /// interval from the present moment, if it is not later already: even a
    /// request that costs nothing holds up the refills.
    pub fn touch(&mut self, req: RateLimitRequest, default: Bucket, cost: u64) -> (touched: Option<
        Bucket,
    >)
        ensures
            final(self).same_settings(*old(self)),
            ({
                let held = bucket_or(old(self)@, req.sender, default);
                if cost > held.0 {
                    touched is None && final(self)@ == old(self)@.insert(
                        req.sender,
                        held,
                    )
                } else {
                    exists|now: Instant|
                        old(self).spec_clock().may_read(now) && now.nanos <= time::last_reading()
                            && touched == Some(
                            #[trigger] charged(held, cost, now, old(self).spec_limits().interval),
                        ) && final(self)@ == old(self)@.insert(req.sender, touched->0)
                }
            }),
    {
        let now = self.clock.now();
        self.touch_at(req, default, cost, now)
    }

    /// Charges `cost` credits to the sender's bucket at the moment `now`.
    pub fn touch_at(
        &mut self,
        req: RateLimitRequest,
        default: Bucket,
        cost: u64,
        now: Instant,
    ) -> (touched: Option<Bucket>)
        requires
            now.nanos + old(self).spec_limits().interval.spec_nanos() <= u128::MAX,
        ensures
            final(self).same_settings(*old(self)),
            ({
                let held = bucket_or(old(self)@, req.sender, default);
                if cost > held.0 {
                    touched is None && final(self)@ == old(self)@.insert(
                        req.sender,
                        held,
                    )
                } else {
                    touched == Some(charged(held, cost, now, old(self).spec_limits().interval))
                        && final(self)@ == old(self)@.insert(req.sender, touched->0)
                }
            }),
    {
        let (credits, deadline) = match self.table.get(&req.sender) {
            Some(held) => held,
            None => {
                self.table.insert(req.sender, default);
                default
            },
        };
        if cost > credits {
            assert(self@ =~= old(self)@.insert(req.sender, (credits, deadline)));
            return None;
        }
        let ahead: u128 = now.nanos + self.limits.interval.as_nanos();
        let next = if deadline.nanos >= ahead {
            deadline
        } else {
            Instant { nanos: ahead }
        };
        let touched: Bucket = (credits - cost, next);
        self.table.insert(req.sender, touched);
        assert(self@ =~= old(self)@.insert(req.sender, touched));
        Some(touched)
    }

    /// Merges the tables of other nodes into this one.
    ///
    /// Afterwards the leaser knows every sender that any of the tables knew. All
    /// buckets of a sender are joined at once, so the order of the tables does
    /// not matter.
    pub fn sync(&mut self, other: &[LeaseTable])
        requires
            old(self).spec_limits().can_merge(contents(other@).push(old(self)@)),
        ensures
            final(self).same_settings(*old(self)),
            final(self)@ == old(self).spec_limits().merge_all(contents(other@).push(old(self)@)),
    {
        let ghost limits = self.limits;
        let ghost tables = contents(other@).push(self@);
        let ghost all = limits.merge_all(tables);
        let mut merged = LeaseTable::new();
        for i in 0..other.len()
            invariant
                limits == self.limits,
                tables == contents(other@).push(self@),
                all == limits.merge_all(tables),
                limits.can_merge(tables),
                merged@.submap_of(all),
                forall|j: int, sender: Sender|
                    0 <= j < i && #[trigger] tables[j].contains_key(sender)
                        ==> merged@.contains_key(sender),
        {
            assert(tables[i as int] == other@[i as int]@);
            self.merge_senders_of(&other[i], other, &mut merged);
        }
        assert(tables[other@.len() as int] == self@);
        self.merge_senders_of(&self.table, other, &mut merged);
        proof {
            assert forall|sender: Sender| #[trigger] all.contains_key(sender) implies merged@.contains_key(
                sender,
            ) by {
                lemma_buckets_of(tables, sender);
                let buckets = buckets_of(tables, sender);
                assert(has_bucket(tables, sender, buckets[0]));
                let j = choose|j: int|
                    0 <= j < tables.len() && (#[trigger] tables[j]).contains_key(sender)
                        && tables[j][sender] == buckets[0];
                assert(tables[j].contains_key(sender));
            }
            assert(merged@ =~= all);
        }
        self.table = merged;
    }

    /// Puts the merged bucket of every sender that `table` knows into `merged`.
    fn merge_senders_of(&self, table: &LeaseTable, other: &[LeaseTable], merged: &mut LeaseTable)
        requires
            self.spec_limits().can_merge(contents(other@).push(self@)),
            contents(other@).push(self@).contains(table@),
            old(merged)@.submap_of(
                self.spec_limits().merge_all(contents(other@).push(self@)),
            ),
        ensures
            final(merged)@.submap_of(
                self.spec_limits().merge_all(contents(other@).push(self@)),
            ),
            forall|sender: Sender|
                #[trigger] final(merged)@.contains_key(sender) <==> old(merged)@.contains_key(
                    sender,
                ) || table@.contains_key(sender),
    {
        let ghost tables = contents(other@).push(self@);
        let ghost all = self.limits.merge_all(tables);
        let ghost before = merged@;
        let entries = table.entries();
        for i in 0..entries.len()
            invariant
                table::lists_map(entries@, table@),
                tables == contents(other@).push(self@),
                all == self.limits.merge_all(tables),
                tables.contains(table@),
                self.limits.can_merge(tables),
                merged@.submap_of(all),
                forall|sender: Sender| #[trigger]
                    merged@.contains_key(sender) <==> before.contains_key(sender) || exists|j: int|
                        0 <= j < i && (#[trigger] entries@[j]).0 == sender,
        {
            let sender = entries[i].0;
            assert(table@.contains_key(entries@[i as int].0));
            if !merged.contains_key(&sender) {
                let buckets = collect_buckets(other, &self.table, &sender);
                proof {
                    lemma_buckets_of(tables, sender);
                    if self.limits.interval.spec_millis() <= 0 {
                        lemma_buckets_share_deadline(tables, sender);
                    }
                }
                let joined = self.limits.join_known(&sender, &buckets);
                merged.insert(sender, joined);
            }
        }
        proof {
            assert forall|sender: Sender| #[trigger] table@.contains_key(sender) implies merged@.contains_key(
                sender,
            ) by {
                let j = choose|j: int|
                    0 <= j < entries@.len() && (#[trigger] entries@[j]).0 == sender;
            }
        }
    }

    /// Drops every bucket whose deadline is older than `cutoff`, which becomes
    /// the epoch.
    pub fn gc(&mut self, cutoff: Instant)
        ensures
            final(self)@ == kept_since(old(self)@, cutoff),
            final(self).spec_epoch() == cutoff,
            final(self).spec_limits() == old(self).spec_limits(),
            final(self).spec_node_id() == old(self).spec_node_id(),
            final(self).spec_clock() == old(self).spec_clock(),
    {
        let entries = self.table.entries();
        let mut kept = LeaseTable::new();
        let ghost all = self@;
        for i in 0..entries.len()
            invariant
                table::lists_map(entries@, all),
                forall|sender: Sender| #[trigger]
                    kept@.contains_key(sender) <==> exists|j: int|
                        0 <= j < i && (#[trigger] entries@[j]).0 == sender
                            && entries@[j].1.1.nanos >= cutoff.nanos,
                forall|sender: Sender| #[trigger]
                    kept@.contains_key(sender) ==> kept@[sender] == all[sender],
        {
            let (sender, held) = entries[i];
            if held.1.nanos >= cutoff.nanos {
                kept.insert(sender, held);
            }
        }
        proof {
            assert forall|sender: Sender| #[trigger]
                kept_since(all, cutoff).contains_key(sender) implies kept@.contains_key(sender) by {
                let j = choose|j: int|
                    0 <= j < entries@.len() && (#[trigger] entries@[j]).0 == sender;
                assert(all[entries@[j].0] == entries@[j].1);
            }
            assert(kept@ =~= kept_since(all, cutoff));
        }
        self.table = kept;
        self.epoch = cutoff;
    }
}

/// One of `tables` has `held` for `sender`.
pub open spec fn has_bucket(
    tables: Seq<Map<Sender, Bucket>>,
    sender: Sender,
    held: Bucket,
) -> bool {
    exists|i: int|
        0 <= i < tables.len() && (#[trigger] tables[i]).contains_key(sender) && tables[i][sender]
            == held
}

/// Each bucket that `tables` have for a sender comes out of one of them, and
/// there is one as soon as any of them knows the sender.
pub proof fn lemma_buckets_of(tables: Seq<Map<Sender, Bucket>>, sender: Sender)
    ensures
        forall|k: int|
            0 <= k < buckets_of(tables, sender).len() ==> has_bucket(
                tables,
                sender,
                #[trigger] buckets_of(tables, sender)[k],
            ),
        forall|i: int|
            0 <= i < tables.len() && (#[trigger] tables[i]).contains_key(sender) ==> buckets_of(
                tables,
                sender,
            ).len() > 0,
    decreases tables.len(),
{
    if tables.len() > 0 {
        let rest = tables.drop_last();
        let before = buckets_of(rest, sender);
        lemma_buckets_of(rest, sender);
        assert(tables[tables.len() - 1] == tables.last());
        assert forall|k: int| 0 <= k < buckets_of(tables, sender).len() implies has_bucket(
            tables,
            sender,
            #[trigger] buckets_of(tables, sender)[k],
        ) by {
            if k < before.len() {
                assert(before[k] == buckets_of(tables, sender)[k]);
                let i = choose|i: int|
                    0 <= i < rest.len() && (#[trigger] rest[i]).contains_key(sender)
                        && rest[i][sender] == before[k];
                assert(tables[i] == rest[i]);
            } else {
                assert(tables[tables.len() - 1].contains_key(sender));
            }
        }
        assert forall|i: int|
            0 <= i < tables.len() && (#[trigger] tables[i]).contains_key(
                sender,
            ) implies buckets_of(tables, sender).len() > 0 by {
            if i < rest.len() {
                assert(rest[i] == tables[i]);
            }
        }
    }
}

/// Where tables agree on the deadlines, the buckets of a sender do.
pub proof fn lemma_buckets_share_deadline(tables: Seq<Map<Sender, Bucket>>, sender: Sender)
    requires
        share_deadlines(tables),
    ensures
        bucket::share_deadline(buckets_of(tables, sender)),
{
    let buckets = buckets_of(tables, sender);
    lemma_buckets_of(tables, sender);
    assert forall|k: int, l: int|
        0 <= k < buckets.len() && 0 <= l < buckets.len() implies (#[trigger] buckets[k]).1.nanos
        == (#[trigger] buckets[l]).1.nanos by {
        assert(has_bucket(tables, sender, buckets[k]) && has_bucket(tables, sender, buckets[l]));
        let i = choose|i: int|
            0 <= i < tables.len() && (#[trigger] tables[i]).contains_key(sender)
                && tables[i][sender] == buckets[k];
        let j = choose|j: int|
            0 <= j < tables.len() && (#[trigger] tables[j]).contains_key(sender)
                && tables[j][sender] == buckets[l];
        assert(tables[i].contains_key(sender) && tables[j].contains_key(sender));
    }
}

} // verus!
