use crossbeam::channel;
use distributed_rate_limiter::channel::{receive_all, take_in};
use distributed_rate_limiter::{
    Clock, Duration, Instant, Ipv4Addr, LeaseTable, RateLimitError, RateLimitRequest, RateLimiter,
    RateLimiterBuilder, RequestData, Sender,
};

fn query(limit: u32, sender: Sender) -> RateLimitRequest {
    RateLimitRequest { request_data: RequestData::Query { limit }, sender }
}

fn unknown() -> Sender {
    Sender::Unknown(Ipv4Addr::new(127, 0, 0, 1))
}

fn at(millis: u64) -> Instant {
    Instant { nanos: (1_000_000 + millis as u128) * 1_000_000 }
}

/// A limiter with a window of one second, a refill of ten, and limits of 200
/// and of 500 for payers, at which buckets start.
fn limiter_of(
    participants: u64,
    clock: Clock,
) -> (RateLimiter, channel::Sender<Vec<LeaseTable>>) {
    RateLimiterBuilder::new(1)
        .initial(500)
        .refill(10)
        .interval(Duration::from_secs(1))
        .max(200)
        .max_payer(500)
        .build(participants, clock)
        .unwrap()
}

#[test]
fn test_exceed_and_wait() {
    let clock = Clock::start();
    let (mut limiter, _sync_channel) = RateLimiterBuilder::new(1)
        .initial(100)
        .refill(10)
        .interval(Duration::from_millis(50))
        .max(20)
        .max_payer(100)
        .build(1, clock)
        .unwrap();

    let request = query(1000, Sender::Payer(1));
    let response = limiter.check_rate_limit_blocking(request).unwrap();
    assert!(response.approved);
    assert_eq!(response.remaining_credits, 0);

    // Not enough credits.
    let request2 = query(800, Sender::Payer(1));
    let response = limiter.check_rate_limit_blocking(request2.clone()).unwrap();
    assert!(!response.approved);
    assert_eq!(response.remaining_credits, 0);

    // Another sender, which has too few credits as well.
    let request_ip = query(210, unknown());
    let response = limiter.check_rate_limit_blocking(request_ip.clone()).unwrap();
    assert!(!response.approved);
    assert_eq!(response.remaining_credits, 20);

    // Wait for the refill.
    let start = clock.now();
    while clock.now().nanos < start.nanos + 500_000_000 {}

    let response = limiter.check_rate_limit_blocking(request2.clone()).unwrap();
    assert!(response.approved);
    assert_eq!(response.remaining_credits, 10);
}

#[test]
fn quick_example() {
    let (mut limiter, _sync_channel) = RateLimiterBuilder::new(1)
        .initial(100)
        .refill(10)
        .interval(Duration::from_secs(1))
        .max(200)
        .max_payer(500)
        .build(1, Clock::start())
        .unwrap();

    let response = limiter.check_rate_limit_blocking(query(50, unknown())).unwrap();
    assert!(response.approved);
    assert_eq!(response.remaining_credits, 95);

    let payer = RateLimitRequest {
        request_data: RequestData::Publish { num_messages: 10 },
        sender: Sender::Payer(123),
    };
    let response = limiter.check_rate_limit_blocking(payer).unwrap();
    assert!(response.approved);
    assert_eq!(response.remaining_credits, 90);

    let node = RateLimitRequest {
        request_data: RequestData::Subscribe { num_topics: 5 },
        sender: Sender::Node(456),
    };
    let response = limiter.check_rate_limit_blocking(node).unwrap();
    assert!(response.approved);
    assert_eq!(response.remaining_credits, u32::MAX);
}

#[test]
fn requests_cost_by_kind() {
    assert_eq!(RequestData::Query { limit: 100 }.credits_needed(), 10);
    assert_eq!(RequestData::Query { limit: 9 }.credits_needed(), 0);
    assert_eq!(RequestData::Publish { num_messages: 7 }.credits_needed(), 7);
    assert_eq!(RequestData::Subscribe { num_topics: u32::MAX }.credits_needed(), 0xffff_ffff);
}

#[test]
fn nodes_pass_and_leave_no_trace() {
    let (mut limiter, _sync_channel) = limiter_of(5, Clock::start());
    for blocking in [false, true] {
        let request = RateLimitRequest {
            request_data: RequestData::Publish { num_messages: u32::MAX },
            sender: Sender::Node(7),
        };
        let response = if blocking {
            limiter.check_rate_limit_blocking(request).unwrap()
        } else {
            limiter.check_rate_limit_non_blocking(request).unwrap()
        };
        assert!(response.approved);
        assert_eq!(response.remaining_credits, u32::MAX);
    }
    assert_eq!(limiter.get_state().len(), 0);
}

#[test]
fn non_blocking_decides_without_a_sync() {
    let clock = Clock::start();
    let (mut limiter, _sync_channel) = limiter_of(10, clock);
    // Far beyond the share of one node, and still within the bucket.
    let response = limiter.check_rate_limit_non_blocking(query(2000, unknown())).unwrap();
    assert!(response.approved);
    assert_eq!(response.remaining_credits, 0);
    let response = limiter.check_rate_limit_non_blocking(query(10, unknown())).unwrap();
    assert!(!response.approved);
    assert_eq!(response.remaining_credits, 0);

    let state = limiter.get_state();
    assert_eq!(state.len(), 1);
    let (credits, deadline) = state.get(&unknown()).unwrap();
    assert_eq!(credits, 0);
    assert!(deadline.nanos <= clock.now().nanos + 1_000_000_000);
}

#[test]
fn blocking_adopts_the_last_state() {
    let clock = Clock::start();
    let (mut limiter, sync_channel) = limiter_of(2, clock);
    let now = clock.now();
    let mut ignored = LeaseTable::new();
    ignored.insert(unknown(), (0, now));
    let mut peer = LeaseTable::new();
    peer.insert(Sender::Payer(3), (77, now));
    sync_channel.send(vec![ignored]).unwrap();
    sync_channel.send(vec![peer, LeaseTable::new()]).unwrap();
    drop(sync_channel);

    let response = limiter.check_rate_limit_blocking(query(1500, unknown())).unwrap();
    assert!(response.approved);
    assert_eq!(response.remaining_credits, 50);
    assert_eq!(limiter.get_state().get(&Sender::Payer(3)), Some((77, now)));
}

#[test]
fn blocking_needs_someone_to_hear() {
    let (mut limiter, sync_channel) = limiter_of(2, Clock::start());
    drop(sync_channel);
    // Within the share of the node nobody has to be heard.
    let response = limiter.check_rate_limit_blocking(query(1100, unknown())).unwrap();
    assert!(response.approved);
    assert_eq!(response.remaining_credits, 90);
    // Beyond it the closed channel is an error.
    let result = limiter.check_rate_limit_blocking(query(1110, unknown()));
    assert!(matches!(result, Err(RateLimitError::SyncChannelDisconnected)));
    assert_eq!(limiter.get_state().get(&unknown()).unwrap().0, 90);
}

#[test]
fn refusal_after_a_sync_tells_the_credits_before_it() {
    let (mut limiter, _sync_channel) = limiter_of(2, Clock::start());
    let sender = unknown();
    let request = query(1500, sender);
    let assessed = limiter.assess(query(1100, sender), at(0));
    assert!(limiter.decide(query(1100, sender), assessed, at(0)).approved);

    let assessed = limiter.assess(request, at(10));
    assert_eq!(assessed.credits_needed, 150);
    assert_eq!(assessed.max_balance, 200);
    assert_eq!(assessed.current_credits, 90);
    assert!(assessed.sync_needed);
    let mut peer = LeaseTable::new();
    peer.insert(sender, (20, at(1000)));
    assert_eq!(limiter.adopt(&vec![vec![peer]]), Ok(()));
    assert_eq!(limiter.get_state().get(&sender), Some((110, at(1000))));
    let response = limiter.decide(request, assessed, at(20));
    assert!(!response.approved);
    assert_eq!(response.remaining_credits, 90);
    assert_eq!(limiter.get_state().get(&sender), Some((110, at(1000))));
}

#[test]
fn replies_are_taken_in_until_the_channel_closes() {
    let (speaker, listener) = channel::unbounded();
    for credits in [5, 6] {
        let mut table = LeaseTable::new();
        table.insert(unknown(), (credits, at(0)));
        speaker.send(vec![table]).unwrap();
    }
    drop(speaker);
    let mut received: Vec<Vec<LeaseTable>> = Vec::new();
    assert!(take_in(&mut received, listener.recv()));
    assert!(take_in(&mut received, listener.recv()));
    assert!(!take_in(&mut received, listener.recv()));
    assert_eq!(received.len(), 2);
    assert_eq!(received[0][0].get(&unknown()), Some((5, at(0))));
    assert_eq!(received[1][0].get(&unknown()), Some((6, at(0))));
}

#[test]
fn all_replies_before_the_error_are_received() {
    let (speaker, listener) = channel::unbounded();
    for credits in [5, 6, 7] {
        let mut table = LeaseTable::new();
        table.insert(unknown(), (credits, at(0)));
        speaker.send(vec![table]).unwrap();
    }
    drop(speaker);
    let next = |source: &channel::Receiver<Vec<LeaseTable>>| source.recv();
    let received = receive_all(next, &listener);
    let credits: Vec<u64> =
        received.iter().map(|message| message[0].get(&unknown()).unwrap().0).collect();
    assert_eq!(credits, vec![5, 6, 7]);
    assert_eq!(receive_all(next, &listener).len(), 0);
}

#[test]
fn no_window_is_needed_before_the_deadline() {
    let (mut limiter, _sync_channel) = RateLimiterBuilder::new(1)
        .initial(100)
        .refill(10)
        .interval(Duration { secs: 0, nanos: 500_000 })
        .max(100)
        .max_payer(100)
        .build(1, Clock::start())
        .unwrap();
    let request = query(100, unknown());
    let assessed = limiter.assess(request, at(0));
    assert!(limiter.decide(request, assessed, at(0)).approved);
    let deadline = Instant { nanos: at(0).nanos + 500_000 };
    assert_eq!(limiter.get_state().get(&unknown()), Some((90, deadline)));
    assert_eq!(limiter.assess(request, deadline).current_credits, 90);
}

#[test]
fn adopting_nothing_is_an_error() {
    let (mut limiter, _sync_channel) = limiter_of(2, Clock::start());
    assert_eq!(limiter.adopt(&Vec::new()), Err(RateLimitError::SyncChannelDisconnected));
}

#[test]
fn assessment_refills_the_bucket() {
    let (mut limiter, _sync_channel) = limiter_of(1, Clock::start());
    let sender = Sender::Payer(8);
    let all = query(5000, sender);
    let assessed = limiter.assess(all, at(0));
    assert_eq!(assessed.current_credits, 500);
    assert!(!assessed.sync_needed);
    let response = limiter.decide(all, assessed, at(0));
    assert!(response.approved);
    assert_eq!(response.remaining_credits, 0);
    assert_eq!(limiter.get_state().get(&sender), Some((0, at(1000))));

    // Nothing is refilled up to the deadline, and one window is after one more.
    assert_eq!(limiter.assess(all, at(1000)).current_credits, 0);
    assert_eq!(limiter.assess(all, at(2500)).current_credits, 10);
    assert_eq!(limiter.get_state().get(&sender), Some((10, at(3000))));
}

#[test]
fn granted_credits_stay_within_the_worth_of_the_bucket() {
    let (mut limiter, _sync_channel) = limiter_of(1, Clock::start());
    let mut granted = 0;
    for second in 0..120 {
        for _ in 0..4 {
            let request = query(300, unknown());
            let now = at(second * 1000);
            let assessed = limiter.assess(request, now);
            if limiter.decide(request, assessed, now).approved {
                granted += 30;
            }
        }
    }
    assert!(granted >= 200);
    assert!(granted <= 200 + 10 * 119);
}

#[test]
fn divided_limits_hold_together() {
    // Two nodes share a bucket of 200 and a refill of 10, half and half.
    let clock = Clock::start();
    let mut nodes: Vec<RateLimiter> = Vec::new();
    for id in 0..2 {
        let (limiter, _sync_channel) = RateLimiterBuilder::new(id)
            .initial(100)
            .refill(5)
            .interval(Duration::from_secs(1))
            .max(100)
            .max_payer(100)
            .build(2, clock)
            .unwrap();
        nodes.push(limiter);
    }
    let mut granted = 0;
    for second in 0..60 {
        for limiter in &mut nodes {
            for _ in 0..3 {
                let request = query(200, unknown());
                let now = at(second * 1000);
                let assessed = limiter.assess(request, now);
                if limiter.decide(request, assessed, now).approved {
                    granted += 20;
                }
            }
        }
    }
    assert!(granted >= 200);
    assert!(granted <= 200 + 10 * 59);
}

#[test]
fn large_balances_are_told_by_their_low_bits() {
    let (mut limiter, _sync_channel) = RateLimiterBuilder::new(1)
        .initial(u64::MAX)
        .refill(1)
        .interval(Duration::from_secs(1))
        .max(0x5_0000_0007)
        .max_payer(1)
        .build(1, Clock::start())
        .unwrap();
    let response = limiter.check_rate_limit_non_blocking(query(20, unknown())).unwrap();
    assert!(response.approved);
    assert_eq!(response.remaining_credits, 5);
}

#[test]
fn gc_makes_senders_new() {
    let clock = Clock::start();
    let (mut limiter, _sync_channel) = limiter_of(1, clock);
    let response = limiter.check_rate_limit_non_blocking(query(2000, unknown())).unwrap();
    assert!(response.approved);
    let (_, deadline) = limiter.get_state().get(&unknown()).unwrap();
    limiter.gc(deadline);
    assert_eq!(limiter.get_state().len(), 1);
    limiter.gc(Instant { nanos: deadline.nanos + 1 });
    assert_eq!(limiter.get_state().len(), 0);
    let response = limiter.check_rate_limit_non_blocking(query(10, unknown())).unwrap();
    assert_eq!(response.remaining_credits, 199);
}

#[test]
fn participants_can_change() {
    let (mut limiter, sync_channel) = limiter_of(1, Clock::start());
    drop(sync_channel);
    assert!(limiter.check_rate_limit_blocking(query(1200, unknown())).unwrap().approved);
    limiter.set_participants(2);
    assert_eq!(limiter.participants, 2);
    assert_eq!(limiter.get_state().len(), 1);
    assert!(limiter.check_rate_limit_blocking(query(1200, unknown())).is_err());
    limiter.participants = 1;
    assert!(limiter.check_rate_limit_blocking(query(1200, unknown())).is_ok());
}

#[test]
fn buckets_start_with_the_initial_credits() {
    let (mut limiter, _sync_channel) = RateLimiterBuilder::new(1)
        .initial(100)
        .refill(30)
        .interval(Duration::from_secs(1))
        .max(40)
        .max_payer(300)
        .build(1, Clock::start())
        .unwrap();
    let payer = Sender::Payer(1);
    assert_eq!(limiter.assess(query(0, payer), at(0)).current_credits, 100);
    // The limit of the sender caps what it starts with.
    assert_eq!(limiter.assess(query(0, unknown()), at(0)).current_credits, 40);
    // Refills lift the balance above the initial credits, up to the limit.
    assert_eq!(limiter.assess(query(0, payer), at(1000)).current_credits, 130);
    assert_eq!(limiter.assess(query(0, payer), at(60_000)).current_credits, 300);
    // A bucket that was dropped starts anew.
    limiter.gc(at(1_000_000));
    assert_eq!(limiter.assess(query(0, payer), at(60_000)).current_credits, 100);
}

#[test]
fn limiter_tells_what_it_can_check() {
    let build = |participants: u64, interval: Duration| {
        RateLimiterBuilder::new(1)
            .initial(100)
            .refill(10)
            .interval(interval)
            .max(100)
            .max_payer(100)
            .build(participants, Clock::start())
            .unwrap()
    };
    let node = query(10, Sender::Node(1));
    let small = query(10, unknown());
    let large = query(1000, unknown());

    let (limiter, _sync_channel) = build(0, Duration::from_secs(1));
    assert!(!limiter.accepts(&small, false));
    assert!(limiter.accepts(&node, true));

    let (mut limiter, _sync_channel) = build(2, Duration { secs: 0, nanos: 999_999 });
    assert!(limiter.accepts(&small, true));
    assert!(limiter.accepts(&large, false));
    assert!(!limiter.accepts(&large, true));
    assert!(limiter.check_rate_limit_blocking(small).unwrap().approved);
    assert!(!limiter.accepts(&small, false));
    assert!(limiter.accepts(&node, true));

    let (limiter, _sync_channel) = build(2, Duration::from_millis(1));
    assert!(limiter.accepts(&large, true));
}

#[test]
fn channel_end_reaches_its_own_limiter() {
    let clock = Clock::start();
    let (mut first, to_first) = limiter_of(2, clock);
    let (mut second, to_second) = limiter_of(2, clock);
    let now = clock.now();
    for (speaker, payer) in [(to_second, 2), (to_first, 1)] {
        let mut table = LeaseTable::new();
        table.insert(Sender::Payer(payer), (payer, now));
        speaker.send(vec![table]).unwrap();
    }
    for (limiter, payer) in [(&mut first, 1), (&mut second, 2)] {
        assert!(limiter.check_rate_limit_blocking(query(1500, unknown())).unwrap().approved);
        assert_eq!(limiter.get_state().get(&Sender::Payer(payer)), Some((payer, now)));
        assert_eq!(limiter.get_state().get(&Sender::Payer(3 - payer)), None);
    }
}

#[test]
fn builder_tells_what_is_missing() {
    let clock = Clock::start();
    let second = Duration::from_secs(1);
    let missing = |builder: RateLimiterBuilder| match builder.build(1, clock) {
        Ok(_) => panic!("nothing is missing"),
        Err(message) => message,
    };
    assert_eq!(missing(RateLimiterBuilder::new(1)), "Initial credits must be set");
    assert_eq!(missing(RateLimiterBuilder::default()), "Initial credits must be set");
    assert_eq!(
        missing(RateLimiterBuilder::new(1).refill(1).interval(second)),
        "Initial credits must be set"
    );
    assert_eq!(missing(RateLimiterBuilder::new(1).initial(1)), "Refill amount must be set");
    assert_eq!(
        missing(RateLimiterBuilder::new(1).initial(1).refill(1)),
        "Refill interval must be set"
    );
}
