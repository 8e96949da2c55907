//! A credit-weighted rate limiter for a group of cooperating nodes.
//!
//! Every sender owns a token bucket: a balance of credits and a deadline. A
//! request costs credits, time past the deadline earns them back, and nodes
//! that serve the same senders exchange their buckets and join them.

pub mod binary64;
pub mod bucket;
pub mod bucket_laws;
pub mod builder;
pub mod channel;
pub mod lease_laws;
pub mod leases;
pub mod limiter;
pub mod limiter_laws;
pub mod listener;
pub mod request;
pub mod request_laws;
pub mod share;
pub mod share_laws;
pub mod table;
pub mod time;
pub mod time_laws;

pub use bucket::{drain_bucket, join_buckets, Bucket};
pub use builder::{RateLimiterBuilder, Settings};
pub use leases::{Leaser, Limits};
pub use limiter::{Assessment, RateLimitError, RateLimiter};
pub use request::{Ipv4Addr, RateLimitRequest, RateLimitResponse, RequestData, Sender};
pub use share::sync_necessary;
pub use table::LeaseTable;
pub use time::{Clock, Duration, Instant};
