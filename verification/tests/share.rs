use distributed_rate_limiter::{sync_necessary, Instant};
use rand::rngs::StdRng;
use rand::{Rng, SeedableRng};

const BUCKET_ERROR: f64 = 0.100;

fn some_moment() -> Instant {
    Instant { nanos: 1_000_000_000 }
}

#[test]
fn test_sync_necessary() {
    let now = some_moment();

    let max_bucket_credits = 100u64;
    assert!(!sync_necessary(max_bucket_credits, 50, now, 1));
    assert!(!sync_necessary(max_bucket_credits, 40, now, 2));
    assert!(sync_necessary(max_bucket_credits, 60, now, 2));

    let max_bucket_credits = 1000u64;
    assert!(sync_necessary(max_bucket_credits, 276, now, 4));
    assert!(!sync_necessary(max_bucket_credits, 275, now, 4));

    let max_bucket_credits = u64::MAX;
    let max_allowed = u64::MAX >> 1;
    let max_allowed = (max_allowed as f64 * (1.0 + BUCKET_ERROR)).ceil() as u64;
    assert!(!sync_necessary(max_bucket_credits, max_allowed, now, 2));
}

/// The rule, in the floating point of the machine.
fn in_floating_point(max: u64, used: u64, participants: u64) -> bool {
    if participants == 1 {
        return false;
    }
    let share: f64 = max as f64 / participants as f64;
    used as f64 > share * (1.0 + BUCKET_ERROR)
}

#[test]
fn agrees_with_floating_point_on_edges() {
    let edges: Vec<u64> = vec![
        0,
        1,
        2,
        3,
        7,
        10,
        11,
        100,
        275,
        276,
        999,
        (1 << 32) - 1,
        1 << 32,
        (1 << 52) - 1,
        1 << 52,
        (1 << 53) - 1,
        1 << 53,
        (1 << 53) + 1,
        (1 << 53) + 2,
        (1 << 53) + 3,
        (1 << 54) + 2,
        (1 << 54) + 6,
        (1 << 63) - 1,
        1 << 63,
        (1 << 63) + 1024,
        (1 << 63) + 1025,
        (1 << 63) + 3072,
        u64::MAX - 2048,
        u64::MAX - 1024,
        u64::MAX - 1023,
        u64::MAX - 1,
        u64::MAX,
    ];
    for &max in &edges {
        for &used in &edges {
            for &participants in &edges {
                if participants > 0 {
                    assert_eq!(
                        sync_necessary(max, used, some_moment(), participants),
                        in_floating_point(max, used, participants),
                        "{max} {used} {participants}"
                    );
                }
            }
        }
    }
}

#[test]
fn agrees_with_floating_point_at_the_margin() {
    let mut rng = StdRng::seed_from_u64(7);
    for _ in 0..200_000 {
        let max: u64 = rng.random::<u64>() >> rng.random_range(0..64);
        let participants: u64 = (rng.random::<u64>() >> rng.random_range(0..64)).max(1);
        let edge = (max as f64 / participants as f64 * (1.0 + BUCKET_ERROR)) as u64;
        for used in [edge.saturating_sub(1), edge, edge.saturating_add(1)] {
            assert_eq!(
                sync_necessary(max, used, some_moment(), participants),
                in_floating_point(max, used, participants),
                "{max} {used} {participants}"
            );
        }
        let used: u64 = rng.random::<u64>() >> rng.random_range(0..64);
        assert_eq!(
            sync_necessary(max, used, some_moment(), participants),
            in_floating_point(max, used, participants),
            "{max} {used} {participants}"
        );
    }
}

#[test]
fn single_node_never_syncs() {
    assert!(!sync_necessary(0, u64::MAX, some_moment(), 1));
}

#[test]
fn fair_share_needs_no_sync() {
    assert!(!sync_necessary(u64::MAX, u64::MAX / 3, some_moment(), 3));
    assert!(!sync_necessary(0, 0, some_moment(), 2));
    assert!(sync_necessary(0, 1, some_moment(), 2));
}

#[test]
fn sync_is_monotonic() {
    let now = some_moment();
    assert!(sync_necessary(1000, 276, now, 4));
    assert!(sync_necessary(999, 276, now, 4));
    assert!(sync_necessary(1000, 277, now, 4));
    assert!(sync_necessary(1000, 276, now, 5));
}

#[test]
fn margin_is_one_tenth_of_the_share() {
    let now = some_moment();
    // Ten times 367 times 3 is just above eleven times 1000, and 366 is below.
    assert!(sync_necessary(1000, 367, now, 3));
    assert!(!sync_necessary(1000, 366, now, 3));
}
