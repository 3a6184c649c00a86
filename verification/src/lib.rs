//! Verified core of a bulk market-data ingestion pipeline.
//!
//! The pipeline partitions a time range into work units, fetches each unit
//! under a shared throughput cap with bounded retry, removes the duplicates
//! that paging leaves at page boundaries, brings the batch into one
//! deterministic order and commits it with a row-count check.  This crate
//! holds every decision of that pipeline as a function from plain values to
//! plain values, each with a proved contract; clocks, sleeping, the network
//! and the storage engine stay with the caller.
//!
//! - [`calendar`]: dates, months and trading sessions
//! - [`planner`]: which partitions a run fetches, and from which day on
//! - [`universe`]: the symbols of a batch
//! - [`limiter`]: the token bucket that caps the request rate
//! - [`retry`]: what follows a failed attempt
//! - [`source`]: shaping what the data source answers
//! - [`dedup`]: merging the pages of a unit
//! - [`pool`]: handing out units and the barrier of a batch
//! - [`aggregate`]: collecting what the workers deliver
//! - [`record`] and [`sort`]: the order of a batch
//! - [`writer`]: what is committed, and the row-count check
//! - [`config`] and [`error`]: the credential, and the failures that end a run

pub mod aggregate;
pub mod calendar;
pub mod config;
pub mod dedup;
pub mod error;
pub mod limiter;
pub mod planner;
pub mod pool;
pub mod record;
pub mod retry;
pub mod sort;
pub mod source;
pub mod universe;
pub mod writer;
