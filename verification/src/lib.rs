//! Rate-limiting engine for structured logs, based on time-bucketed
//! reservoir sampling.
//!
//! Events are collected into fixed-duration time buckets and sampled with
//! Algorithm R, producing a statistically uniform sample per bucket. Several
//! sampling budgets may be configured; an event displaced from one budget's
//! reservoir cascades to the next matching budget. Drained buckets are
//! released to the sink smeared over the following bucket, in arrival order.

pub mod laws;
pub mod level;
pub mod order;
pub mod reservoir;
pub mod sampler;
pub mod stats;
