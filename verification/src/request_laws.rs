//! What requests cost.

use vstd::prelude::*;

use crate::request::RequestData;

verus! {

/// A query costs one credit for every full ten results that it may return.
pub proof fn law_query_costs_a_tenth(limit: u32, credits: int)
    ensures
        (RequestData::Query { limit }).spec_credits_needed() == credits <==> 10 * credits <= limit
            < 10 * credits + 10,
{
}

/// Publishing costs one credit for each message.
pub proof fn law_publishing_costs_one_each(num_messages: u32)
    ensures
        (RequestData::Publish { num_messages }).spec_credits_needed() == num_messages,
{
}

/// Subscribing costs one credit for each topic.
pub proof fn law_subscribing_costs_one_each(num_topics: u32)
    ensures
        (RequestData::Subscribe { num_topics }).spec_credits_needed() == num_topics,
{
}

} // verus!
