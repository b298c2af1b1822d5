//! Core of a partitioned message-streaming broker: the wire codec for
//! commands, command validation, the partitioned append-only log with its
//! segments and write buffers, the read cache with its metrics, the command
//! dispatch pipeline, and the persistence scheduler.
//!
//! Network transport, configuration loading and host-metrics collection are
//! collaborators outside this crate; they exchange plain values with it.

pub mod cache;
pub mod create_partitions;
pub mod dispatch;
pub mod error;
pub mod identifier;
pub mod partition;
pub mod save_messages;
pub mod stats;
pub mod system;

pub use create_partitions::CreatePartitions;
pub use error::IggyError;
pub use identifier::Identifier;
pub use save_messages::{MessagesSaver, SaveMessagesCommand, SaveMessagesExecutor};
pub use stats::BenchmarkCacheMetricsKey;
