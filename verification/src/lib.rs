//! Block ingestion analysis: greedy account-lock scheduling and contention
//! reporting, token trade inference and candle bucketing, block JSON
//! extraction, and RPC outcome classification.

pub mod api;
pub mod block_rows;
pub mod contention;
pub mod json;
pub mod ohlcv;
pub mod pipeline;
pub mod range_report;
pub mod rpc;
pub mod schedule_laws;
pub mod text;
