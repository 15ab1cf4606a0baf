//! Verified core of a soil-moisture ingestion pipeline: sensor readings
//! arrive as structured payloads over a publish/subscribe transport, are
//! decoded into measurements, queued, and written to a time-series store
//! with bounded exponential backoff on failure.

pub mod digits;
pub mod ext;
pub mod measurement;
pub mod payload;
pub mod query;
pub mod retry;
pub mod transport;
pub mod queue;
pub mod pipeline;

