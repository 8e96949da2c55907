use distributed_rate_limiter::{drain_bucket, join_buckets, Bucket, Duration, Instant};
use rand::rngs::StdRng;
use rand::{Rng, SeedableRng};

/// A moment that has room on both sides.
fn some_moment() -> Instant {
    Instant { nanos: 1_000_000_000_000_000 }
}

fn after(from: Instant, length: Duration) -> Instant {
    Instant { nanos: from.nanos + length.as_nanos() }
}

fn before(from: Instant, length: Duration) -> Instant {
    Instant { nanos: from.nanos - length.as_nanos() }
}

#[test]
fn test_drain() {
    let now = some_moment();
    let test_cases: Vec<(u64, Duration, u64, u64)> = vec![
        (0, Duration::from_secs(1), 100, 10),
        (0, Duration::from_millis(500), 50, 5),
        (0, Duration::from_secs(5), 1000, 100),
    ];

    for (current_credits, interval, max_balance, credits_bucket) in test_cases {
        // Before the deadline.
        let deadline = after(now, Duration::from_millis(100));
        let result = drain_bucket(
            current_credits,
            deadline,
            now,
            interval,
            max_balance,
            credits_bucket,
        );
        assert_eq!(result, Some((current_credits, deadline)));

        // After the deadline.
        let deadline = before(now, Duration::from_millis(100));
        let (credits, new_deadline) = drain_bucket(
            current_credits,
            deadline,
            now,
            interval,
            max_balance,
            credits_bucket,
        )
        .unwrap();
        assert!(credits <= max_balance);
        assert!(new_deadline > now);
        assert!(new_deadline.nanos - now.nanos <= interval.as_nanos());

        // Several periods.
        let length = std::time::Duration::new(interval.secs, interval.nanos).mul_f32(2.5);
        let deadline = Instant { nanos: now.nanos - length.as_nanos() };
        let (credits, _) = drain_bucket(
            current_credits,
            deadline,
            now,
            interval,
            max_balance,
            credits_bucket,
        )
        .unwrap();
        let expected = (credits_bucket * 2).min(max_balance);
        assert_eq!(credits, expected);
    }
}

#[test]
fn test_join_buckets() {
    let now = some_moment();
    let at = |millis: u64| after(now, Duration::from_millis(millis));

    // A single bucket stays as it is.
    let buckets = vec![(50u64, now)];
    let (total_credits, latest_deadline) =
        join_buckets(&buckets, 1000, Duration::from_secs(1), 10);
    assert_eq!(total_credits, 50);
    assert_eq!(latest_deadline, now);

    let buckets = vec![(50u64, at(500)), (30u64, at(500))];
    let (total_credits, _latest_deadline) =
        join_buckets(&buckets, 1000, Duration::from_secs(1), 10);
    assert_eq!(total_credits, 80);

    let buckets = vec![(50u64, at(500)), (30u64, at(300))];
    let (total_credits, latest_deadline) =
        join_buckets(&buckets, 1000, Duration::from_secs(1), 10);
    assert_eq!(total_credits, 80);
    assert_eq!(latest_deadline, at(500));

    let buckets = vec![(20u64, at(100)), (40u64, at(200)), (60u64, at(300))];
    let (total_credits, latest_deadline) =
        join_buckets(&buckets, 1000, Duration::from_secs(1), 10);
    assert_eq!(total_credits, 120);
    assert_eq!(latest_deadline, at(300));

    let buckets = vec![(10u64, at(100)), (20u64, at(100)), (30u64, at(100))];
    let (total_credits, latest_deadline) =
        join_buckets(&buckets, 1000, Duration::from_secs(1), 10);
    assert_eq!(total_credits, 60);
    assert_eq!(latest_deadline, at(100));

    // The sum saturates.
    let buckets = vec![(u64::MAX, at(100)), (1u64, at(200))];
    let (total_credits, latest_deadline) =
        join_buckets(&buckets, u64::MAX, Duration::from_secs(1), 10);
    assert_eq!(total_credits, u64::MAX);
    assert_eq!(latest_deadline, at(200));

    let buckets = vec![
        (10u64, at(100)),
        (20u64, at(200)),
        (30u64, at(300)),
        (40u64, at(400)),
        (50u64, at(500)),
        (60u64, at(600)),
        (70u64, at(700)),
        (80u64, at(800)),
        (90u64, at(900)),
        (100u64, at(1000)),
    ];
    let (total_credits, latest_deadline) =
        join_buckets(&buckets, 1000, Duration::from_secs(1), 10);
    assert_eq!(total_credits, 550);
    assert_eq!(latest_deadline, at(1000));
}

#[test]
fn test_join_buckets_permutations() {
    let now = some_moment();
    let original_buckets = vec![
        (10u64, after(now, Duration::from_millis(100))),
        (20u64, after(now, Duration::from_millis(200))),
        (30u64, after(now, Duration::from_millis(300))),
    ];
    let seeds = [0, 42, 100, 255];
    let expected_total = 60u64;
    let expected_deadline = after(now, Duration::from_millis(300));

    for seed in seeds {
        let permuted = permute_states_with_seed(original_buckets.clone(), seed);
        let (total_credits, latest_deadline) =
            join_buckets(&permuted, 100, Duration::from_secs(1), 10);
        assert_eq!(total_credits, expected_total, "Total credits mismatch for seed {seed}");
        assert_eq!(
            latest_deadline, expected_deadline,
            "Latest deadline mismatch for seed {seed}"
        );

        let mut sorted_original = original_buckets.clone();
        let mut sorted_permuted = permuted.clone();
        sorted_original.sort_by_key(|&(c, _)| c);
        sorted_permuted.sort_by_key(|&(c, _)| c);
        assert_eq!(
            sorted_original, sorted_permuted,
            "Permuted buckets missing elements for seed {seed}"
        );
    }
}

fn permute_states_with_seed(mut states: Vec<Bucket>, seed: u64) -> Vec<Bucket> {
    let mut rng = StdRng::seed_from_u64(seed);
    for i in (1..states.len()).rev() {
        let j = rng.random_range(0..=i);
        states.swap(i, j);
    }
    states
}

#[test]
fn test_integrated_bucket_operations() {
    let now = some_moment();
    let interval = Duration::from_secs(1);
    let max_balance = 1000;
    let credits_bucket = 100;
    let refill = 100;

    let bucket1 = (500u64, before(now, Duration::from_millis(500)));
    let bucket2 = (400u64, before(now, Duration::from_millis(300)));

    let (credits1, deadline1) =
        drain_bucket(credits_bucket, bucket1.1, now, interval, max_balance, refill).unwrap();
    let (credits2, deadline2) =
        drain_bucket(credits_bucket, bucket2.1, now, interval, max_balance, refill).unwrap();

    let buckets = vec![(credits1, deadline1), (credits2, deadline2)];
    let (total_credits, latest_deadline) = join_buckets(&buckets, max_balance, interval, refill);
    assert!(
        total_credits > 0,
        "Total credits should be positive after draining and joining"
    );
    assert_eq!(
        latest_deadline,
        deadline1.max(deadline2),
        "Latest deadline should be max of both deadlines"
    );
}

#[test]
fn test_bucket_draining_over_time() {
    let now = some_moment();
    let interval = Duration::from_secs(1);
    let max_balance = 100;
    let initial_credits = 80;
    let next = |length: Duration| after(after(now, length), interval);

    let test_points = vec![
        (Duration::from_millis(0), Some((80, now))),
        (Duration::from_millis(500), Some((80, after(now, interval)))),
        (Duration::from_secs(1), Some((100, next(Duration::from_secs(1))))),
        (Duration::from_millis(1500), Some((100, next(Duration::from_secs(1))))),
        (Duration::from_secs(2), Some((100, next(Duration::from_secs(2))))),
        (Duration::from_secs(4), Some((100, next(Duration::from_secs(4))))),
        (Duration::from_secs(400), Some((100, next(Duration::from_secs(400))))),
    ];

    for (elapsed, expected) in test_points {
        let check_time = after(now, elapsed);
        let result = drain_bucket(
            initial_credits,
            now,
            check_time,
            interval,
            max_balance,
            initial_credits,
        );
        assert_eq!(result, expected, "Unexpected drain result after {elapsed:?}");
    }

    let far_future = after(now, Duration::from_secs(1000));
    let result = drain_bucket(
        initial_credits,
        now,
        far_future,
        interval,
        max_balance,
        initial_credits,
    );
    assert_eq!(result, Some((max_balance, after(far_future, interval))));
}

#[test]
fn durations_count_in_milliseconds() {
    assert_eq!(Duration::from_secs(3), Duration { secs: 3, nanos: 0 });
    assert_eq!(Duration::from_millis(1234), Duration { secs: 1, nanos: 234_000_000 });
    assert_eq!(Duration::from_millis(u64::MAX).as_millis(), u64::MAX as u128);
    assert_eq!(Duration { secs: 0, nanos: 1_999_999 }.as_millis(), 1);
    assert_eq!(
        Duration { secs: u64::MAX, nanos: 999_999_999 }.as_nanos(),
        18_446_744_073_709_551_615_999_999_999
    );
}

#[test]
fn refills_never_overflow() {
    let now = some_moment();
    let interval = Duration::from_millis(1);
    let long_ago = Instant { nanos: 0 };
    // The windows times the refill exceed 64 bits, and so does the sum.
    assert_eq!(
        drain_bucket(u64::MAX, long_ago, now, interval, u64::MAX, u64::MAX).unwrap().0,
        u64::MAX
    );
    assert_eq!(drain_bucket(10, long_ago, now, interval, 100, u64::MAX).unwrap().0, 100);
    // One window with the largest refill, on top of some credits.
    let one_window = before(now, interval);
    assert_eq!(drain_bucket(10, one_window, now, interval, 100, u64::MAX).unwrap().0, 100);
    // Even more windows than 64 bits can count.
    let end_of_time = Instant { nanos: u128::MAX - 1_000_000 };
    assert_eq!(drain_bucket(10, long_ago, end_of_time, interval, 100, 1).unwrap().0, 100);
    assert_eq!(drain_bucket(10, long_ago, end_of_time, interval, 100, 0).unwrap().0, 10);
}

#[test]
fn drained_bucket_is_cut_to_the_limit() {
    let now = some_moment();
    let interval = Duration::from_secs(1);
    // Past the deadline a balance above the limit is cut, before it is not.
    assert_eq!(
        drain_bucket(200, before(now, Duration::from_millis(1)), now, interval, 100, 10),
        Some((100, after(now, Duration::from_millis(999))))
    );
    assert_eq!(drain_bucket(200, now, now, interval, 100, 10), Some((200, now)));
}

#[test]
fn windows_are_counted_in_whole_milliseconds() {
    let now = some_moment();
    // A window of one and a half milliseconds counts as one.
    let interval = Duration { secs: 0, nanos: 1_500_000 };
    let deadline = Instant { nanos: now.nanos - 2_900_000 };
    assert_eq!(
        drain_bucket(0, deadline, now, interval, 100, 7),
        Some((14, Instant { nanos: now.nanos + 1_500_000 }))
    );
}

#[test]
fn draining_twice_at_once_changes_nothing() {
    let now = some_moment();
    let interval = Duration::from_secs(1);
    let deadline = before(now, Duration::from_millis(2300));
    let (credits, next) = drain_bucket(5, deadline, now, interval, 100, 10).unwrap();
    assert_eq!((credits, next), (25, after(now, Duration::from_millis(700))));
    assert_eq!(drain_bucket(credits, next, now, interval, 100, 10), Some((credits, next)));
}

#[test]
fn draining_on_the_way_gains_nothing() {
    let start = some_moment();
    let interval = Duration::from_secs(1);
    let at = |millis: u64| after(start, Duration::from_millis(millis));
    let (on_the_way, next) = drain_bucket(0, start, at(1500), interval, 100, 10).unwrap();
    let (twice, _) = drain_bucket(on_the_way, next, at(4200), interval, 100, 10).unwrap();
    let (once, _) = drain_bucket(0, start, at(4200), interval, 100, 10).unwrap();
    assert_eq!((on_the_way, twice, once), (10, 30, 40));
}

#[test]
fn joining_refills_up_to_the_latest_deadline() {
    let now = some_moment();
    let buckets = [(5u64, now), (7u64, after(now, Duration::from_millis(3100)))];
    assert_eq!(
        join_buckets(&buckets, 1000, Duration::from_secs(1), 10),
        (42, after(now, Duration::from_millis(3100)))
    );
    let swapped = [buckets[1], buckets[0]];
    assert_eq!(
        join_buckets(&swapped, 1000, Duration::from_secs(1), 10),
        join_buckets(&buckets, 1000, Duration::from_secs(1), 10)
    );
    assert_eq!(join_buckets(&buckets, 30, Duration::from_secs(1), 10).0, 30);
}

#[test]
fn joining_in_stages_within_one_window() {
    let now = some_moment();
    let at = |millis: u64| after(now, Duration::from_millis(millis));
    let interval = Duration::from_secs(1);
    let buckets = [(30, at(0)), (50, at(900)), (7, at(400)), (60, at(999))];
    for max in [1000, 100] {
        let at_once = join_buckets(&buckets, max, interval, 10);
        assert_eq!(at_once, (147.min(max), at(999)));
        for split in 1..4 {
            let mut staged = vec![join_buckets(&buckets[..split], max, interval, 10)];
            staged.extend_from_slice(&buckets[split..]);
            assert_eq!(join_buckets(&staged, max, interval, 10), at_once);
        }
    }
}

#[test]
fn joining_defers_refills() {
    let now = some_moment();
    let at = |millis: u64| after(now, Duration::from_millis(millis));
    let interval = Duration::from_secs(1);
    let early = (0u64, at(0));
    let late = (0u64, at(900));
    let (credits, deadline) = join_buckets(&[early, late], 100, interval, 10);
    assert_eq!((credits, deadline), (0, at(900)));
    let joined = drain_bucket(credits, deadline, at(1500), interval, 100, 10).unwrap();
    let alone = drain_bucket(early.0, early.1, at(1500), interval, 100, 10).unwrap();
    assert_eq!((joined.0, alone.0), (0, 10));
}

#[test]
fn equal_deadlines_need_no_window() {
    let now = some_moment();
    let none = Duration::from_millis(0);
    assert_eq!(join_buckets(&[(5, now), (6, now)], 100, none, 10), (11, now));
    assert_eq!(drain_bucket(5, now, now, none, 100, 10), Some((5, now)));
}
