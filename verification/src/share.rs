//! When a node may serve a request on its own, and when it has to hear from
//! the other nodes first.

use vstd::prelude::*;

use crate::binary64;
use crate::binary64::Binary64;
use crate::share_laws;
use crate::time::Instant;

verus! {

/// The part of a sender's bucket that each of `participants` nodes may hand
/// out without asking the others, computed in doubles.
pub open spec fn fair_share(max_bucket_credits: u64, participants: u64) -> Binary64 {
    binary64::nearest(
        binary64::nearest(max_bucket_credits as int, 1).units(),
        binary64::nearest(participants as int, 1).units(),
    )
}

/// The fair share and one tenth on top, the error that the limiter allows
/// itself, computed in doubles.
pub open spec fn allowed_share(max_bucket_credits: u64, participants: u64) -> Binary64 {
    binary64::nearest(
        fair_share(max_bucket_credits, participants).units() * binary64::one_and_a_tenth().units(),
        binary64::one_in_units() * binary64::one_in_units(),
    )
}

/// Whether the nodes have to sync before a request for `credits_to_be_used`
/// is decided: never for a node on its own, and otherwise when the request
/// takes more than the node's share and the error margin.
pub open spec fn needs_sync(
    max_bucket_credits: u64,
    credits_to_be_used: u64,
    participants: u64,
) -> bool {
    participants != 1 && binary64::nearest(credits_to_be_used as int, 1).units() > allowed_share(
        max_bucket_credits,
        participants,
    ).units()
}

/// Decides whether a request forces the node to sync with the others.
///
/// Each of N nodes may use `max_bucket_credits / N` credits, and a tenth more,
/// without coordination. The moment of the request plays no part in it. Up to
/// `2^46` credits the decision is the one that exact arithmetic makes; beyond,
/// it is the one that doubles make.
pub fn sync_necessary(
    max_bucket_credits: u64,
    credits_to_be_used: u64,
    _now: Instant,
    participants: u64,
) -> (necessary: bool)
    requires
        participants > 0,
    ensures
        necessary == needs_sync(max_bucket_credits, credits_to_be_used, participants),
        max_bucket_credits <= 0x4000_0000_0000 ==> necessary == (participants > 1 && 10 * (
        credits_to_be_used * participants) > 11 * max_bucket_credits),
{
    if participants == 1 {
        return false;
    }
    proof {
        if max_bucket_credits <= 0x4000_0000_0000 {
            share_laws::law_margin_is_one_tenth(
                max_bucket_credits,
                credits_to_be_used,
                participants,
            );
        }
    }
    let share = Binary64::from_u64(max_bucket_credits).div(&Binary64::from_u64(participants));
    let allowed = share.mul(&binary64::add_tenth_to_one());
    Binary64::from_u64(credits_to_be_used).exceeds(&allowed)
}

} // verus!
