use distributed_rate_limiter::{
    Bucket, Clock, Duration, Instant, Ipv4Addr, LeaseTable, Leaser, RateLimitRequest, RequestData,
    Sender,
};

fn query(sender: Sender) -> RateLimitRequest {
    RateLimitRequest { request_data: RequestData::Query { limit: 10 }, sender }
}

fn some_moment() -> Instant {
    Instant { nanos: 1_000_000_000_000 }
}

fn at(millis: u64) -> Instant {
    Instant { nanos: some_moment().nanos + millis as u128 * 1_000_000 }
}

fn table_of(entries: &[(Sender, Bucket)]) -> LeaseTable {
    let mut table = LeaseTable::new();
    for &(sender, bucket) in entries {
        table.insert(sender, bucket);
    }
    table
}

fn leaser_of(entries: &[(Sender, Bucket)]) -> Leaser {
    let mut leaser = Leaser::new(1, 100, 1000, Duration::from_secs(1), 10, Clock::start());
    for &(sender, bucket) in entries {
        leaser.record(sender, bucket);
    }
    leaser
}

#[test]
fn test_touch() {
    let clock = Clock::start();
    let mut leaser = Leaser::new(1, 100, 1000, Duration::from_secs(1), 10, clock);
    let now = clock.now();

    // With the default.
    let request = query(Sender::Payer(1));
    let default = (100, now);
    let cost = 10;
    let result = leaser.touch(request.clone(), default, cost);
    assert!(result.is_some());
    let (credits, deadline) = result.unwrap();
    assert_eq!(credits, 90);
    assert!(deadline >= now);

    assert_eq!(leaser.table().len(), 1);
    assert!(leaser.table().contains_key(&request.sender));
    let (stored_credits, stored_deadline) = leaser.table().get(&request.sender).unwrap();
    assert_eq!(stored_credits, 90);
    assert!(stored_deadline >= now);

    // A default without credits.
    let default = (0, now);
    let result = leaser.touch(request.clone(), default, cost);
    assert!(result.is_some());
    let (credits, _) = result.unwrap();
    assert_eq!(credits, 80);
    let (stored_credits, _) = leaser.table().get(&request.sender).unwrap();
    assert_eq!(stored_credits, 80);

    // A default with too few credits.
    let default = (5, now);
    let result = leaser.touch(request.clone(), default, cost);
    assert!(result.is_some());
    let (credits, _) = result.unwrap();
    assert_eq!(credits, 70);
    let (stored_credits, _) = leaser.table().get(&request.sender).unwrap();
    assert_eq!(stored_credits, 70);

    // Another sender.
    let request2 = query(Sender::Node(2));
    let default = (100, now);
    let result = leaser.touch(request2.clone(), default, cost);
    assert!(result.is_some());
    let (credits, _) = result.unwrap();
    assert_eq!(credits, 90);
    assert!(leaser.table().contains_key(&request2.sender));
    let (stored_credits, _) = leaser.table().get(&request2.sender).unwrap();
    assert_eq!(stored_credits, 90);

    // The first sender again.
    let default = (100, now);
    let result = leaser.touch(request.clone(), default, cost);
    assert!(result.is_some());
    let (credits, _) = result.unwrap();
    assert_eq!(credits, 60);
    let result = leaser.touch(request.clone(), default, cost);
    assert!(result.is_some());
    let (credits, _) = result.unwrap();
    assert_eq!(credits, 50);
    let (stored_credits, _) = leaser.table().get(&request.sender).unwrap();
    assert_eq!(stored_credits, 50);
}

#[test]
fn clock_moves_on_from_its_origin() {
    let clock = Clock::start();
    let copy = clock;
    let first = clock.now();
    let mut second = copy.now();
    while second.nanos < first.nanos + 2_000_000 {
        second = copy.now();
    }
    assert!(second > first);
    assert!(clock.now() >= second);
}

#[test]
fn touch_sets_the_deadline_from_the_clock() {
    let clock = Clock::start();
    let interval = Duration::from_secs(1);
    let mut leaser = Leaser::new(1, 100, 1000, interval, 10, clock);
    let before = clock.now();
    let (_, deadline) = leaser.touch(query(Sender::Payer(1)), (100, before), 0).unwrap();
    let after = clock.now();
    assert!(deadline.nanos >= before.nanos + interval.as_nanos());
    assert!(deadline.nanos <= after.nanos + interval.as_nanos());
}

#[test]
fn touch_charges_exactly() {
    let sender = Sender::Payer(3);
    let mut leaser = leaser_of(&[(sender, (50, at(0)))]);
    // A deadline that is earlier than one interval ahead moves there.
    assert_eq!(leaser.touch_at(query(sender), (7, at(9)), 20, at(5)), Some((30, at(1005))));
    // One that is later stays.
    assert_eq!(leaser.touch_at(query(sender), (7, at(9)), 0, at(1)), Some((30, at(1005))));
    // All that is left can be spent, and no more.
    assert_eq!(leaser.touch_at(query(sender), (7, at(9)), 31, at(10)), None);
    assert_eq!(leaser.table().get(&sender), Some((30, at(1005))));
    assert_eq!(leaser.touch_at(query(sender), (7, at(9)), 30, at(10)), Some((0, at(1010))));
}

#[test]
fn refused_touch_keeps_the_default() {
    let sender = Sender::Unknown(Ipv4Addr::new(10, 0, 0, 1));
    let mut leaser = leaser_of(&[]);
    assert_eq!(leaser.touch_at(query(sender), (7, at(9)), 8, at(5)), None);
    assert_eq!(leaser.table().get(&sender), Some((7, at(9))));
}

#[test]
fn limits_go_by_sender() {
    let leaser = leaser_of(&[]);
    assert_eq!(leaser.get_max_limit(&Sender::Payer(9)), 1000);
    assert_eq!(leaser.get_max_limit(&Sender::Node(9)), u64::MAX);
    assert_eq!(leaser.get_max_limit(&Sender::Unknown(Ipv4Addr::new(1, 2, 3, 4))), 100);
    assert_eq!(leaser.limits().refill_amount, 10);
    assert_eq!(leaser.limits().interval, Duration::from_secs(1));
}

#[test]
fn addresses_are_spelled_by_their_octets() {
    assert_eq!(Ipv4Addr::new(127, 0, 0, 1).bits, 0x7f00_0001);
    assert_eq!(Ipv4Addr::new(255, 254, 253, 252).bits, 0xfffe_fdfc);
}

#[test]
fn table_keeps_kinds_of_senders_apart() {
    let entries = [
        (Sender::Payer(1), (10, at(1))),
        (Sender::Node(1), (20, at(2))),
        (Sender::Unknown(Ipv4Addr { bits: 1 }), (30, at(3))),
    ];
    let mut table = table_of(&entries);
    assert_eq!(table.len(), 3);
    for (sender, bucket) in entries {
        assert_eq!(table.get(&sender), Some(bucket));
    }
    assert!(!table.contains_key(&Sender::Payer(2)));
    assert_eq!(table.get(&Sender::Node(2)), None);
    table.insert(Sender::Node(1), (21, at(2)));
    assert_eq!(table.len(), 3);
    assert_eq!(table.get(&Sender::Node(1)), Some((21, at(2))));

    let mut listed = table.entries();
    listed.sort_by_key(|&(_, (credits, _))| credits);
    assert_eq!(
        listed,
        vec![
            (Sender::Payer(1), (10, at(1))),
            (Sender::Node(1), (21, at(2))),
            (Sender::Unknown(Ipv4Addr { bits: 1 }), (30, at(3))),
        ]
    );

    let copy = table.clone();
    table.insert(Sender::Payer(1), (0, at(0)));
    assert_eq!(copy.get(&Sender::Payer(1)), Some((10, at(1))));
}

#[test]
fn sync_joins_what_both_know() {
    let both = Sender::Payer(1);
    let mine = Sender::Payer(2);
    let theirs = Sender::Unknown(Ipv4Addr::new(1, 1, 1, 1));
    let mut leaser = leaser_of(&[(both, (5, at(3000))), (mine, (6, at(1)))]);
    leaser.sync(&[table_of(&[(both, (7, at(500))), (theirs, (8, at(2)))])]);
    // Two windows passed between the two deadlines.
    assert_eq!(leaser.table().get(&both), Some((32, at(3000))));
    assert_eq!(leaser.table().get(&mine), Some((6, at(1))));
    assert_eq!(leaser.table().get(&theirs), Some((8, at(2))));
    assert_eq!(leaser.table().len(), 3);
}

#[test]
fn sync_caps_at_the_limit_of_the_sender() {
    let payer = Sender::Payer(1);
    let unknown = Sender::Unknown(Ipv4Addr::new(1, 1, 1, 1));
    let node = Sender::Node(4);
    let peer = table_of(&[
        (payer, (900, at(0))),
        (unknown, (90, at(0))),
        (node, (u64::MAX, at(0))),
    ]);
    let mut leaser = leaser_of(&[
        (payer, (900, at(0))),
        (unknown, (90, at(0))),
        (node, (5, at(0))),
    ]);
    leaser.sync(&[peer]);
    assert_eq!(leaser.table().get(&payer), Some((1000, at(0))));
    assert_eq!(leaser.table().get(&unknown), Some((100, at(0))));
    assert_eq!(leaser.table().get(&node), Some((u64::MAX, at(0))));
}

#[test]
fn sync_with_nobody_changes_nothing() {
    let sender = Sender::Payer(1);
    let mut leaser = leaser_of(&[(sender, (2000, at(0)))]);
    leaser.sync(&[]);
    assert_eq!(leaser.table().get(&sender), Some((2000, at(0))));
    leaser.sync(&[LeaseTable::new()]);
    assert_eq!(leaser.table().get(&sender), Some((2000, at(0))));
}

#[test]
fn two_nodes_agree_after_a_sync() {
    let sender = Sender::Payer(1);
    let a = (5, at(3000));
    let b = (7, at(500));
    let mut first = leaser_of(&[(sender, a)]);
    let mut second = leaser_of(&[(sender, b)]);
    first.sync(&[table_of(&[(sender, b)])]);
    second.sync(&[table_of(&[(sender, a)])]);
    assert_eq!(first.table().get(&sender), second.table().get(&sender));
}

#[test]
fn close_buckets_merge_in_any_order() {
    let sender = Sender::Payer(1);
    let tables = [
        table_of(&[(sender, (1, at(100)))]),
        table_of(&[(sender, (20, at(900)))]),
        table_of(&[(sender, (300, at(400)))]),
    ];
    for order in [[0, 1, 2], [0, 2, 1], [1, 0, 2], [1, 2, 0], [2, 0, 1], [2, 1, 0]] {
        let mut leaser = leaser_of(&[]);
        let others: Vec<LeaseTable> = order.iter().map(|&i: &usize| tables[i].clone()).collect();
        leaser.sync(&others);
        assert_eq!(leaser.table().get(&sender), Some((321, at(900))));
    }
}

#[test]
fn distant_buckets_merge_in_any_order() {
    let sender = Sender::Payer(1);
    let tables = [
        table_of(&[(sender, (0, at(0)))]),
        table_of(&[(sender, (0, at(500)))]),
        table_of(&[(sender, (0, at(1000)))]),
    ];
    for order in [[0, 1, 2], [0, 2, 1], [1, 0, 2], [1, 2, 0], [2, 0, 1], [2, 1, 0]] {
        let mut leaser = leaser_of(&[]);
        let others: Vec<LeaseTable> = order.iter().map(|&i: &usize| tables[i].clone()).collect();
        leaser.sync(&others);
        assert_eq!(leaser.table().get(&sender), Some((10, at(1000))));
    }
    // Each node has one of the tables and hears the other two.
    for own in 0..3 {
        let mut leaser = leaser_of(&tables[own].entries());
        let others: Vec<LeaseTable> =
            (0..3).filter(|&i| i != own).map(|i: usize| tables[i].clone()).collect();
        leaser.sync(&others);
        assert_eq!(leaser.table().get(&sender), Some((10, at(1000))));
    }
}

#[test]
fn leaser_can_start_buckets_lower() {
    let leaser = leaser_of(&[]);
    assert_eq!(leaser.limits().get_initial_balance(&Sender::Payer(1)), 1000);
    let leaser = leaser.starting_with(300);
    assert_eq!(leaser.limits().get_initial_balance(&Sender::Payer(1)), 300);
    assert_eq!(leaser.limits().get_initial_balance(&Sender::Unknown(Ipv4Addr { bits: 1 })), 100);
    assert_eq!(leaser.get_max_limit(&Sender::Payer(1)), 1000);
}

#[test]
fn gc_drops_older_deadlines() {
    let old = Sender::Payer(1);
    let edge = Sender::Payer(2);
    let young = Sender::Unknown(Ipv4Addr::new(9, 9, 9, 9));
    let mut leaser = leaser_of(&[
        (old, (1, Instant { nanos: at(10).nanos - 1 })),
        (edge, (2, at(10))),
        (young, (3, at(11))),
    ]);
    leaser.gc(at(10));
    assert_eq!(leaser.table().len(), 2);
    assert_eq!(leaser.table().get(&old), None);
    assert_eq!(leaser.table().get(&edge), Some((2, at(10))));
    assert_eq!(leaser.table().get(&young), Some((3, at(11))));
    leaser.gc(at(5));
    assert_eq!(leaser.table().len(), 2);
    leaser.gc(at(11));
    assert_eq!(leaser.table().len(), 1);
}
