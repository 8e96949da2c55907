//! Who sends a request, what it asks for, and what it is answered.

use vstd::prelude::*;

verus! {

/// An IPv4 address, as the number that its four octets spell.
#[derive(Clone, Copy, Debug, PartialEq, Eq, Hash, Structural)]
pub struct Ipv4Addr {
    pub bits: u32,
}

impl Ipv4Addr {
    /// The address `a.b.c.d`.
    pub fn new(a: u8, b: u8, c: u8, d: u8) -> (addr: Self)
        ensures
            addr.bits == a * 0x100_0000 + b * 0x1_0000 + c * 0x100 + d,
    {
        Ipv4Addr {
            bits: (a as u32) * 0x100_0000 + (b as u32) * 0x1_0000 + (c as u32) * 0x100 + (d as u32),
        }
    }
}

/// The sender of a request. Payers have a limit of their own, other nodes have
/// none, and everyone else is known by the address alone.
#[derive(Clone, Copy, Debug, PartialEq, Eq, Hash, Structural)]
pub enum Sender {
    Payer(u64),
    Node(u64),
    Unknown(Ipv4Addr),
}

/// What a request asks for.
#[derive(Clone, Copy, Debug)]
pub enum RequestData {
    Query { limit: u32 },
    Publish { num_messages: u32 },
    Subscribe { num_topics: u32 },
}

impl RequestData {
    /// The credits that the request costs: one for every ten results that a
    /// query may return, one for each message, one for each topic.
    pub open spec fn spec_credits_needed(self) -> int {
        match self {
            RequestData::Query { limit } => limit as int / 10,
            RequestData::Publish { num_messages } => num_messages as int,
            RequestData::Subscribe { num_topics } => num_topics as int,
        }
    }

    /// The credits that the request costs.
    pub fn credits_needed(&self) -> (credits: u64)
        ensures
            credits == self.spec_credits_needed(),
            *self matches RequestData::Query { limit } ==> 10 * credits <= limit < 10 * credits
                + 10,
            *self matches RequestData::Publish { num_messages } ==> credits == num_messages,
            *self matches RequestData::Subscribe { num_topics } ==> credits == num_topics,
    {
        match *self {
            RequestData::Query { limit } => (limit / 10) as u64,
            RequestData::Publish { num_messages } => num_messages as u64,
            RequestData::Subscribe { num_topics } => num_topics as u64,
        }
    }
}

/// A request and its sender.
#[derive(Clone, Copy, Debug)]
pub struct RateLimitRequest {
    pub request_data: RequestData,
    pub sender: Sender,
}

/// Whether a request may pass, and the credits that its sender has left. The
/// credits are given by their low 32 bits.
#[derive(Clone, Copy, Debug)]
pub struct RateLimitResponse {
    pub approved: bool,
    pub remaining_credits: u32,
}

} // verus!
