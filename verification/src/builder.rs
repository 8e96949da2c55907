//! How a rate limiter is configured.

use crossbeam::channel::Sender as ChannelSender;
use vstd::prelude::*;

use crate::bucket::Bucket;
use crate::channel::open_channel;
use crate::leases::{Leaser, Limits};
use crate::limiter::RateLimiter;
use crate::listener::{Listener, Reply};
use crate::request::Sender;
use crate::table::LeaseTable;
use crate::time;
use crate::time::{Clock, Duration};

verus! {

/// What has been set so far.
#[derive(Clone, Copy, Debug)]
pub struct Settings {
    pub initial: Option<u64>,
    pub refill: Option<u64>,
    pub interval: Option<Duration>,
    pub max: Option<u64>,
    pub max_payer: Option<u64>,
    pub node_id: u64,
}

/// Collects the settings of a rate limiter.
#[derive(Debug)]
pub struct RateLimiterBuilder {
    settings: Settings,
}

impl View for RateLimiterBuilder {
    type V = Settings;

    closed spec fn view(&self) -> Settings {
        self.settings
    }
}

/// The settings of node `node_id` before anything has been set.
pub open spec fn unset(node_id: u64) -> Settings {
    Settings {
        initial: None,
        refill: None,
        interval: None,
        max: None,
        max_payer: None,
        node_id,
    }
}

/// A builder that nothing was set on knows the node and nothing else.
pub proof fn law_nothing_is_set(node_id: u64)
    ensures
        unset(node_id).node_id == node_id,
        unset(node_id).initial is None,
        unset(node_id).refill is None,
        unset(node_id).interval is None,
        unset(node_id).max is None,
        unset(node_id).max_payer is None,
{
}

impl Default for RateLimiterBuilder {
    fn default() -> (builder: Self)
        ensures
            builder@ == unset(0),
    {
        RateLimiterBuilder::new(0)
    }
}

impl RateLimiterBuilder {
    /// A builder for node `node_id`, with nothing set.
    pub fn new(node_id: u64) -> (builder: Self)
        ensures
            builder@ == unset(node_id),
    {
        RateLimiterBuilder {
            settings: Settings {
                initial: None,
                refill: None,
                interval: None,
                max: None,
                max_payer: None,
                node_id,
            },
        }
    }

    /// Sets the initial number of credits: what a bucket starts with, as far as
    /// its sender's limit allows.
    pub fn initial(self, initial: u64) -> (builder: Self)
        ensures
            builder@ == (Settings { initial: Some(initial), ..self@ }),
    {
        RateLimiterBuilder { settings: Settings { initial: Some(initial), ..self.settings } }
    }

    /// Sets the number of credits that each interval adds.
    pub fn refill(self, refill: u64) -> (builder: Self)
        ensures
            builder@ == (Settings { refill: Some(refill), ..self@ }),
    {
        RateLimiterBuilder { settings: Settings { refill: Some(refill), ..self.settings } }
    }

    /// Sets the length of a refill interval.
    pub fn interval(self, interval: Duration) -> (builder: Self)
        ensures
            builder@ == (Settings { interval: Some(interval), ..self@ }),
    {
        RateLimiterBuilder { settings: Settings { interval: Some(interval), ..self.settings } }
    }

    /// Sets the largest number of credits that a sender can have.
    pub fn max(self, max: u64) -> (builder: Self)
        ensures
            builder@ == (Settings { max: Some(max), ..self@ }),
    {
        RateLimiterBuilder { settings: Settings { max: Some(max), ..self.settings } }
    }

    /// Sets the largest number of credits that a payer can have.
    pub fn max_payer(self, max_payer: u64) -> (builder: Self)
        ensures
            builder@ == (Settings { max_payer: Some(max_payer), ..self@ }),
    {
        RateLimiterBuilder { settings: Settings { max_payer: Some(max_payer), ..self.settings } }
    }

    /// Builds the limiter of one of `participants` nodes, which reads the time
    /// from `clock`, and the end of the channel at which the other nodes send it
    /// their buckets. The initial credits, the refill and the interval have to
    /// be set, or an error says which one is not.
    pub fn build(self, participants: u64, clock: Clock) -> (built: Result<
        (RateLimiter, ChannelSender<Vec<LeaseTable>>),
        &'static str,
    >)
        requires
            self@.initial is Some && self@.refill is Some && self@.interval is Some
                ==> self@.max is Some && self@.max_payer is Some,
        ensures
            self@.initial is None ==> built is Err && built->Err_0@
                == "Initial credits must be set"@,
            self@.initial is Some && self@.refill is None ==> built is Err && built->Err_0@
                == "Refill amount must be set"@,
            self@.initial is Some && self@.refill is Some && self@.interval is None ==> built is Err
                && built->Err_0@ == "Refill interval must be set"@,
            self@.initial is Some && self@.refill is Some && self@.interval is Some ==> {
                &&& built matches Ok((limiter, sync_channel))
                &&& crate::channel::connected(sync_channel, limiter.spec_sync_channel())
                &&& limiter@ == Map::<Sender, Bucket>::empty()
                &&& limiter.spec_heard() == Seq::<Reply>::empty()
                &&& limiter.spec_limits() == (Limits {
                    initial: self@.initial->0,
                    max_limit: self@.max->0,
                    max_limit_payer: self@.max_payer->0,
                    interval: self@.interval->0,
                    refill_amount: self@.refill->0,
                })
                &&& limiter.spec_node_id() == self@.node_id
                &&& limiter.spec_participants() == participants
                &&& limiter.spec_clock() == clock
                &&& clock.may_read(limiter.spec_epoch())
                &&& limiter.spec_epoch().nanos <= time::last_reading()
            },
    {
        let initial: u64 = match self.settings.initial {
            Some(initial) => initial,
            None => return Err("Initial credits must be set"),
        };
        let refill: u64 = match self.settings.refill {
            Some(refill) => refill,
            None => return Err("Refill amount must be set"),
        };
        let interval = match self.settings.interval {
            Some(interval) => interval,
            None => return Err("Refill interval must be set"),
        };
        let max: u64 = self.settings.max.unwrap();
        let max_payer: u64 = self.settings.max_payer.unwrap();
        let (sender_channel, receiver_channel) = open_channel();
        let leases = Leaser::new(
            self.settings.node_id,
            max,
            max_payer,
            interval,
            refill,
            clock,
        ).starting_with(initial);
        let limiter = RateLimiter::assemble(
            leases,
            participants,
            Listener::new(receiver_channel),
        );
        Ok((limiter, sender_channel))
    }
}

} // verus!
