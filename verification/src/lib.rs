//! An append-only session log for timestamped telemetry records.
//!
//! The log is a sequence of checksummed frames. Start and stop markers
//! partition it into sessions, and an in-memory index, always rebuilt from
//! the log itself, says where each session lies.

pub mod checksum;
pub mod codec;
pub mod error;
pub mod facade;
pub mod framing;
pub mod index;
pub mod laws;
pub mod model;
pub mod scan;
pub mod store;
pub mod wire;
