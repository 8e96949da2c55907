//! What holds of the tables of buckets: how they merge, what is charged to
//! them, and what a clean-up leaves.

use vstd::prelude::*;

use crate::bucket;
use crate::bucket::Bucket;
use crate::bucket_laws;
use crate::leases;
use crate::leases::Limits;
use crate::request::{Ipv4Addr, Sender};
use crate::table;
use crate::table::LeaseTable;
use crate::time::{Duration, Instant};

verus! {

/// After a sync the leaser knows the senders that any of the tables knew, and
/// no others.
pub proof fn law_merge_knows_every_sender(
    limits: Limits,
    tables: Seq<Map<Sender, Bucket>>,
    sender: Sender,
)
    ensures
        limits.merge_all(tables).contains_key(sender) <==> exists|i: int|
            0 <= i < tables.len() && (#[trigger] tables[i]).contains_key(sender),
{
    let buckets = leases::buckets_of(tables, sender);
    leases::lemma_buckets_of(tables, sender);
    if buckets.len() > 0 {
        assert(leases::has_bucket(tables, sender, buckets[0]));
        let i = choose|i: int|
            0 <= i < tables.len() && (#[trigger] tables[i]).contains_key(sender)
                && tables[i][sender] == buckets[0];
        assert(tables[i].contains_key(sender));
    }
}

/// Payers have a limit of their own, nodes have none to speak of, and everyone
/// else has the common one.
pub proof fn law_limits_by_sender(limits: Limits, id: u64, addr: Ipv4Addr)
    ensures
        limits.spec_max_limit(Sender::Payer(id)) == limits.max_limit_payer,
        limits.spec_max_limit(Sender::Node(id)) == 0xffff_ffff_ffff_ffff,
        limits.spec_max_limit(Sender::Unknown(addr)) == limits.max_limit,
{
}

/// What a new bucket starts with: the initial credits where the limit allows
/// them, and else the limit.
pub proof fn law_initial_balance(limits: Limits, sender: Sender)
    ensures
        limits.initial <= limits.spec_max_limit(sender) ==> limits.spec_initial_balance(sender)
            == limits.initial,
        limits.initial > limits.spec_max_limit(sender) ==> limits.spec_initial_balance(sender)
            == limits.spec_max_limit(sender),
{
}

/// A sender that is known meets its own bucket, and any other the fallback.
pub proof fn law_bucket_or_fallback(table: Map<Sender, Bucket>, sender: Sender, fallback: Bucket)
    ensures
        table.contains_key(sender) ==> leases::bucket_or(table, sender, fallback) == table[sender],
        !table.contains_key(sender) ==> leases::bucket_or(table, sender, fallback) == fallback,
{
}

/// A listing of a table holds each of its senders with its bucket, nothing else,
/// and no sender twice.
pub proof fn law_entries_are_the_table(
    entries: Seq<(Sender, Bucket)>,
    map: Map<Sender, Bucket>,
    sender: Sender,
    held: Bucket,
)
    requires
        table::lists_map(entries, map),
    ensures
        entries.contains((sender, held)) <==> map.contains_key(sender) && map[sender] == held,
        entries.no_duplicates(),
{
    if map.contains_key(sender) && map[sender] == held {
        let i = choose|i: int| 0 <= i < entries.len() && (#[trigger] entries[i]).0 == sender;
        assert(entries[i] == (sender, held));
    }
    if entries.contains((sender, held)) {
        let i = choose|i: int| 0 <= i < entries.len() && entries[i] == (sender, held);
        assert(map.contains_key(entries[i].0));
    }
}

/// What is said of several tables is said of each of them, in their order.
pub proof fn law_contents_are_the_tables(tables: Seq<LeaseTable>)
    ensures
        leases::contents(tables).len() == tables.len(),
        forall|i: int|
            0 <= i < tables.len() ==> #[trigger] leases::contents(tables)[i] == tables[i]@,
{
}

/// Tables that give each sender one deadline can be merged whatever the window.
pub proof fn law_tables_of_one_moment_can_be_merged(
    limits: Limits,
    tables: Seq<Map<Sender, Bucket>>,
)
    requires
        forall|i: int, j: int, sender: Sender|
            0 <= i < tables.len() && 0 <= j < tables.len() && #[trigger] tables[i].contains_key(
                sender,
            ) && #[trigger] tables[j].contains_key(sender) ==> tables[i][sender].1
                == tables[j][sender].1,
    ensures
        limits.can_merge(tables),
{
}

/// With a window of at least a millisecond any tables can be merged.
pub proof fn law_tables_can_be_merged(limits: Limits, tables: Seq<Map<Sender, Bucket>>)
    requires
        1_000_000 <= 1_000_000_000 * limits.interval.secs + limits.interval.nanos,
    ensures
        limits.can_merge(tables),
{
}

/// A clean-up drops exactly the buckets whose deadline is older than the cutoff,
/// and leaves the others as they are.
pub proof fn law_gc_drops_exactly_the_older(
    table: Map<Sender, Bucket>,
    cutoff: Instant,
    sender: Sender,
)
    ensures
        ({
            let kept = leases::kept_since(table, cutoff);
            &&& kept.contains_key(sender) <==> table.contains_key(sender) && !(
            table[sender].1.nanos < cutoff.nanos)
            &&& kept.contains_key(sender) ==> kept[sender] == table[sender]
        }),
{
}

/// How many of `tables` know `sender`.
pub open spec fn knowers(tables: Seq<Map<Sender, Bucket>>, sender: Sender) -> int
    decreases tables.len(),
{
    if tables.len() == 0 {
        0
    } else {
        knowers(tables.drop_last(), sender) + (if tables.last().contains_key(sender) {
            1int
        } else {
            0
        })
    }
}

/// The sum of what `tables` hold for `sender`.
pub open spec fn held_by_all(tables: Seq<Map<Sender, Bucket>>, sender: Sender) -> int
    decreases tables.len(),
{
    if tables.len() == 0 {
        0
    } else {
        held_by_all(tables.drop_last(), sender) + (if tables.last().contains_key(sender) {
            tables.last()[sender].0 as int
        } else {
            0
        })
    }
}

/// The sum of the balances that the buckets of `sender` have at `moment`.
pub open spec fn held_at(
    limits: Limits,
    tables: Seq<Map<Sender, Bucket>>,
    sender: Sender,
    moment: Instant,
) -> int
    decreases tables.len(),
{
    if tables.len() == 0 {
        0
    } else {
        held_at(limits, tables.drop_last(), sender, moment) + (if tables.last().contains_key(
            sender,
        ) {
            bucket::drained_credits(
                tables.last()[sender].0 as int,
                tables.last()[sender].1,
                moment,
                limits.interval,
                limits.spec_max_limit(sender) as int,
                limits.refill_amount as int,
            )
        } else {
            0
        })
    }
}

proof fn lemma_sums_over_tables(
    limits: Limits,
    tables: Seq<Map<Sender, Bucket>>,
    sender: Sender,
    moment: Instant,
)
    ensures
        leases::buckets_of(tables, sender).len() == knowers(tables, sender),
        bucket_laws::sum_of(leases::buckets_of(tables, sender)) == held_by_all(tables, sender),
        bucket_laws::sum_at(
            leases::buckets_of(tables, sender),
            moment,
            limits.spec_max_limit(sender),
            limits.interval,
            limits.refill_amount,
        ) == held_at(limits, tables, sender, moment),
    decreases tables.len(),
{
    if tables.len() > 0 {
        lemma_sums_over_tables(limits, tables.drop_last(), sender, moment);
        let before = leases::buckets_of(tables.drop_last(), sender);
        if tables.last().contains_key(sender) {
            let held = tables.last()[sender];
            assert(before.push(held).drop_last() =~= before);
            assert(before.push(held).last() == held);
        }
    }
}

/// Between no two buckets that `tables` have for `sender` does a refill fall due.
pub open spec fn no_refill_between(
    limits: Limits,
    tables: Seq<Map<Sender, Bucket>>,
    sender: Sender,
) -> bool {
    limits.refill_amount == 0 || forall|i: int, j: int|
        0 <= i < tables.len() && 0 <= j < tables.len() && (#[trigger] tables[i]).contains_key(
            sender,
        ) && (#[trigger] tables[j]).contains_key(sender) ==> bucket::windows_since(
            tables[i][sender].1,
            tables[j][sender].1,
            limits.interval,
        ) == 0
}

/// A sender that two tables or more know gets all its credits together. Its
/// merged bucket has the latest deadline of all, and the sum of the balances of
/// that moment, up to its limit: never less than what the tables hold, and
/// exactly that where no refill falls due between them.
pub proof fn law_merged_credits_add_up(
    limits: Limits,
    tables: Seq<Map<Sender, Bucket>>,
    sender: Sender,
)
    requires
        limits.can_merge(tables),
        knowers(tables, sender) >= 2,
    ensures
        limits.merge_all(tables).contains_key(sender),
        ({
            let (credits, deadline) = limits.merge_all(tables)[sender];
            let limit = limits.spec_max_limit(sender);
            let held = held_by_all(tables, sender);
            let total = held_at(limits, tables, sender, deadline);
            &&& exists|i: int|
                0 <= i < tables.len() && (#[trigger] tables[i]).contains_key(sender)
                    && tables[i][sender].1 == deadline
            &&& forall|i: int|
                0 <= i < tables.len() && (#[trigger] tables[i]).contains_key(sender)
                    ==> tables[i][sender].1.nanos <= deadline.nanos
            &&& total <= limit ==> credits == total
            &&& total > limit ==> credits == limit
            &&& held <= limit ==> credits >= held
            &&& held > limit ==> credits == limit
            &&& no_refill_between(limits, tables, sender) && held <= limit ==> credits == held
        }),
{
    let buckets = leases::buckets_of(tables, sender);
    let (credits, deadline) = limits.merge_all(tables)[sender];
    lemma_sums_over_tables(limits, tables, sender, deadline);
    leases::lemma_buckets_of(tables, sender);
    if limits.interval.spec_millis() <= 0 {
        leases::lemma_buckets_share_deadline(tables, sender);
    }
    bucket_laws::law_join_adds_up(
        buckets,
        limits.spec_max_limit(sender),
        limits.interval,
        limits.refill_amount,
    );
    let k = choose|k: int| 0 <= k < buckets.len() && (#[trigger] buckets[k]).1 == deadline;
    assert(leases::has_bucket(tables, sender, buckets[k]));
    assert forall|i: int|
        0 <= i < tables.len() && (#[trigger] tables[i]).contains_key(
            sender,
        ) implies tables[i][sender].1.nanos <= deadline.nanos by {
        lemma_bucket_is_collected(tables, sender, i);
        let l = choose|l: int| 0 <= l < buckets.len() && #[trigger] buckets[l] == tables[i][sender];
        assert(buckets[l].1.nanos <= deadline.nanos);
    }
    if no_refill_between(limits, tables, sender) {
        assert forall|a: int, b: int|
            limits.refill_amount != 0 && 0 <= a < buckets.len() && 0 <= b
                < buckets.len() implies bucket::windows_since(
            (#[trigger] buckets[a]).1,
            (#[trigger] buckets[b]).1,
            limits.interval,
        ) == 0 by {
            assert(leases::has_bucket(tables, sender, buckets[a]));
            assert(leases::has_bucket(tables, sender, buckets[b]));
            let i = choose|i: int|
                0 <= i < tables.len() && (#[trigger] tables[i]).contains_key(sender)
                    && tables[i][sender] == buckets[a];
            let j = choose|j: int|
                0 <= j < tables.len() && (#[trigger] tables[j]).contains_key(sender)
                    && tables[j][sender] == buckets[b];
            assert(tables[i].contains_key(sender) && tables[j].contains_key(sender));
        }
    }
}

/// Every bucket that a table has for a sender is among those that are joined.
proof fn lemma_bucket_is_collected(tables: Seq<Map<Sender, Bucket>>, sender: Sender, i: int)
    requires
        0 <= i < tables.len(),
        tables[i].contains_key(sender),
    ensures
        exists|l: int|
            0 <= l < leases::buckets_of(tables, sender).len() && #[trigger] leases::buckets_of(
                tables,
                sender,
            )[l] == tables[i][sender],
    decreases tables.len(),
{
    let rest = tables.drop_last();
    let before = leases::buckets_of(rest, sender);
    let buckets = leases::buckets_of(tables, sender);
    if i < rest.len() {
        assert(rest[i] == tables[i]);
        lemma_bucket_is_collected(rest, sender, i);
        let l = choose|l: int| 0 <= l < before.len() && #[trigger] before[l] == rest[i][sender];
        assert(buckets[l] == before[l]);
    } else {
        assert(buckets[before.len() as int] == tables.last()[sender]);
    }
}

/// A sender that only one table knows keeps the bucket that it has there, and a
/// sender that none knows stays unknown.
pub proof fn law_lone_bucket_is_kept(
    limits: Limits,
    tables: Seq<Map<Sender, Bucket>>,
    sender: Sender,
)
    ensures
        knowers(tables, sender) == 0 ==> !limits.merge_all(tables).contains_key(sender),
        knowers(tables, sender) == 1 ==> limits.merge_all(tables).contains_key(sender) && exists|
            i: int,
        |
            0 <= i < tables.len() && (#[trigger] tables[i]).contains_key(sender)
                && limits.merge_all(tables)[sender] == tables[i][sender],
{
    let any = Instant { nanos: 0 };
    lemma_sums_over_tables(limits, tables, sender, any);
    leases::lemma_buckets_of(tables, sender);
    if knowers(tables, sender) == 1 {
        assert(leases::has_bucket(tables, sender, leases::buckets_of(tables, sender)[0]));
    }
}

/// A sync with nobody changes nothing.
pub proof fn law_merge_of_one(limits: Limits, table: Map<Sender, Bucket>)
    ensures
        limits.merge_all(seq![table]) == table,
{
    assert(seq![table].drop_last() =~= Seq::<Map<Sender, Bucket>>::empty());
    assert(seq![table].last() == table);
    reveal_with_fuel(leases::buckets_of, 2);
    assert(limits.merge_all(seq![table]) =~= table);
}

/// The order of merging does not matter: tables that come in any other order
/// merge into the same table.
pub proof fn law_merge_order_is_irrelevant(
    limits: Limits,
    tables: Seq<Map<Sender, Bucket>>,
    permuted: Seq<Map<Sender, Bucket>>,
)
    requires
        tables.to_multiset() == permuted.to_multiset(),
    ensures
        limits.merge_all(tables) == limits.merge_all(permuted),
{
    let merged = limits.merge_all(tables);
    let other = limits.merge_all(permuted);
    assert forall|sender: Sender|
        #[trigger] merged.contains_key(sender) == other.contains_key(sender) && (
        merged.contains_key(sender) ==> merged[sender] == other[sender]) by {
        let buckets = leases::buckets_of(tables, sender);
        let others = leases::buckets_of(permuted, sender);
        lemma_buckets_of_permuted(tables, permuted, sender);
        buckets.to_multiset_ensures();
        others.to_multiset_ensures();
        assert(buckets.len() == others.len());
        if buckets.len() == 1 {
            assert(buckets.contains(buckets[0]));
            assert(buckets.to_multiset().count(buckets[0]) > 0);
            assert(others.contains(buckets[0]));
        } else if buckets.len() > 1 {
            bucket_laws::law_join_is_commutative(
                buckets,
                others,
                limits.spec_max_limit(sender),
                limits.interval,
                limits.refill_amount,
            );
        }
    }
    assert(merged =~= other);
}

/// Nodes that all hear from all others arrive at the same table. Each of them
/// merges its own table last.
pub proof fn law_all_nodes_agree_after_a_sync(
    limits: Limits,
    tables: Seq<Map<Sender, Bucket>>,
    i: int,
    j: int,
)
    requires
        0 <= i < tables.len(),
        0 <= j < tables.len(),
    ensures
        limits.merge_all(tables.remove(i).push(tables[i])) == limits.merge_all(
            tables.remove(j).push(tables[j]),
        ),
{
    lemma_own_table_last(tables, i);
    lemma_own_table_last(tables, j);
    law_merge_order_is_irrelevant(
        limits,
        tables.remove(i).push(tables[i]),
        tables.remove(j).push(tables[j]),
    );
}

proof fn lemma_own_table_last(tables: Seq<Map<Sender, Bucket>>, i: int)
    requires
        0 <= i < tables.len(),
    ensures
        tables.remove(i).push(tables[i]).to_multiset() == tables.to_multiset(),
{
    tables.to_multiset_ensures();
    tables.remove(i).to_multiset_ensures();
    assert(tables.contains(tables[i]));
    assert(tables.to_multiset().count(tables[i]) > 0);
    assert(tables.remove(i).push(tables[i]).to_multiset() =~= tables.to_multiset());
}

/// Tables in another order have the same buckets, in another order.
proof fn lemma_buckets_of_permuted(
    tables: Seq<Map<Sender, Bucket>>,
    permuted: Seq<Map<Sender, Bucket>>,
    sender: Sender,
)
    requires
        tables.to_multiset() == permuted.to_multiset(),
    ensures
        leases::buckets_of(tables, sender).to_multiset() == leases::buckets_of(permuted, sender).to_multiset(),
    decreases tables.len(),
{
    tables.to_multiset_ensures();
    permuted.to_multiset_ensures();
    assert(tables.len() == permuted.len());
    if tables.len() > 0 {
        let last = tables.last();
        assert(tables[tables.len() - 1] == last);
        assert(tables.contains(last));
        assert(tables.to_multiset().count(last) > 0);
        let i = choose|i: int| 0 <= i < permuted.len() && permuted[i] == last;
        assert(tables.drop_last() =~= tables.remove(tables.len() - 1));
        assert(tables.drop_last().to_multiset() =~= permuted.remove(i).to_multiset());
        lemma_buckets_of_permuted(tables.drop_last(), permuted.remove(i), sender);
        lemma_buckets_without(permuted, i, sender);
        leases::buckets_of(tables.drop_last(), sender).to_multiset_ensures();
    }
}

proof fn lemma_buckets_without(tables: Seq<Map<Sender, Bucket>>, i: int, sender: Sender)
    requires
        0 <= i < tables.len(),
    ensures
        leases::buckets_of(tables, sender).to_multiset() == (if tables[i].contains_key(sender) {
            leases::buckets_of(tables.remove(i), sender).to_multiset().insert(tables[i][sender])
        } else {
            leases::buckets_of(tables.remove(i), sender).to_multiset()
        }),
    decreases tables.len(),
{
    let rest = tables.drop_last();
    if i == tables.len() - 1 {
        assert(tables.remove(i) =~= rest);
        leases::buckets_of(rest, sender).to_multiset_ensures();
    } else {
        lemma_buckets_without(rest, i, sender);
        let removed = tables.remove(i);
        assert(removed.drop_last() =~= rest.remove(i));
        assert(removed.last() == tables.last());
        leases::buckets_of(rest, sender).to_multiset_ensures();
        leases::buckets_of(rest.remove(i), sender).to_multiset_ensures();
        assert(leases::buckets_of(tables, sender).to_multiset() =~= (if tables[i].contains_key(sender) {
            leases::buckets_of(removed, sender).to_multiset().insert(tables[i][sender])
        } else {
            leases::buckets_of(removed, sender).to_multiset()
        }));
    }
}

/// Merging keeps every balance within its limit.
pub proof fn law_merge_stays_within_limits(limits: Limits, tables: Seq<Map<Sender, Bucket>>)
    requires
        limits.can_merge(tables),
        forall|i: int| 0 <= i < tables.len() ==> within_limits(limits, #[trigger] tables[i]),
    ensures
        within_limits(limits, limits.merge_all(tables)),
{
    let merged = limits.merge_all(tables);
    assert forall|sender: Sender| #[trigger] merged.contains_key(sender) implies merged[sender].0
        <= limits.spec_max_limit(sender) by {
        let buckets = leases::buckets_of(tables, sender);
        leases::lemma_buckets_of(tables, sender);
        if buckets.len() == 1 {
            assert(leases::has_bucket(tables, sender, buckets[0]));
            let i = choose|i: int|
                0 <= i < tables.len() && (#[trigger] tables[i]).contains_key(sender)
                    && tables[i][sender] == buckets[0];
            assert(within_limits(limits, tables[i]));
        } else {
            if limits.interval.spec_millis() <= 0 {
                leases::lemma_buckets_share_deadline(tables, sender);
            }
            bucket_laws::law_join_is_bounded(
                buckets,
                limits.spec_max_limit(sender),
                limits.interval,
                limits.refill_amount,
            );
        }
    }
}

/// No sender has more credits than its limit allows.
pub open spec fn within_limits(limits: Limits, table: Map<Sender, Bucket>) -> bool {
    forall|sender: Sender| #[trigger]
        table.contains_key(sender) ==> table[sender].0 <= limits.spec_max_limit(sender)
}

/// A request that is refused leaves the bucket of a known sender, and with it
/// the whole table, as it was.
pub proof fn law_refused_touch_changes_nothing(
    table: Map<Sender, Bucket>,
    sender: Sender,
    fallback: Bucket,
)
    requires
        table.contains_key(sender),
    ensures
        table.insert(sender, leases::bucket_or(table, sender, fallback)) == table,
{
    assert(table.insert(sender, table[sender]) =~= table);
}

/// A charge takes exactly its cost, never moves a deadline back, and leaves at
/// least one interval before the next refill, even where it costs nothing.
pub proof fn law_charge_is_exact(held: Bucket, cost: u64, now: Instant, interval: Duration)
    requires
        cost <= held.0,
        now.nanos + interval.spec_nanos() <= u128::MAX,
    ensures
        ({
            let (credits, deadline) = leases::charged(held, cost, now, interval);
            &&& credits + cost == held.0
            &&& deadline.nanos >= held.1.nanos
            &&& deadline.nanos >= now.nanos + interval.spec_nanos()
            &&& deadline.nanos == held.1.nanos || deadline.nanos == now.nanos
                + interval.spec_nanos()
        }),
{
}

/// Two clean-ups leave what the one with the later cutoff leaves; in
/// particular, repeating one changes nothing.
pub proof fn law_gc_keeps_the_later_cutoff(
    table: Map<Sender, Bucket>,
    first: Instant,
    second: Instant,
)
    ensures
        leases::kept_since(leases::kept_since(table, first), second) == leases::kept_since(
            table,
            if first.nanos <= second.nanos {
                second
            } else {
                first
            },
        ),
{
    assert(leases::kept_since(leases::kept_since(table, first), second) =~= leases::kept_since(
        table,
        if first.nanos <= second.nanos {
            second
        } else {
            first
        },
    ));
}

} // verus!
