# distributed_rate_limiter

A credit-weighted rate limiter for a group of cooperating nodes, written and
proved in Verus.

Every sender owns a token bucket: a balance of credits and a deadline. Requests
cost credits, time past the deadline earns them back, and nodes that serve the
same senders exchange their buckets and join them.

## Layout

- `src/time.rs`: instants, durations and the clock.
- `src/bucket.rs`: draining one bucket, joining several; laws in
  `src/bucket_laws.rs`.
- `src/binary64.rs`: the double-precision operations that the sync decision is
  made with, on integers.
- `src/share.rs`: whether a request forces a sync; laws in `src/share_laws.rs`.
- `src/request.rs`: senders, requests, their costs, and responses.
- `src/table.rs`: the table of buckets.
- `src/leases.rs`: charging, merging and cleaning up tables; laws in
  `src/lease_laws.rs`.
- `src/channel.rs`: the channel on which other nodes send their tables.
- `src/limiter.rs`: the limiter itself; laws in `src/limiter_laws.rs`.
- `src/builder.rs`: its configuration.
- `app/`: the limiter behind serialisable messages and the types of the standard
  library.

## Example

```rust
use distributed_rate_limiter::{
    Clock, Duration, RateLimitRequest, RateLimiterBuilder, RequestData, Sender,
};

let (mut limiter, _sync_channel) = RateLimiterBuilder::new(1)
    .initial(100)
    .refill(10)
    .interval(Duration::from_secs(1))
    .max(200)
    .max_payer(500)
    .build(1, Clock::start())
    .unwrap();

let response = limiter
    .check_rate_limit_blocking(RateLimitRequest {
        request_data: RequestData::Query { limit: 50 },
        sender: Sender::Payer(123),
    })
    .unwrap();
assert!(response.approved);
assert_eq!(response.remaining_credits, 95);
```

A bucket starts with the initial credits, as far as its sender's limit allows
them. Limiters that exchange buckets are built on copies of one clock.
