//! A log-structured key-value store with string keys and typed values: a
//! memtable in memory, immutable sorted tables with sparse indexes on disk,
//! point reads through both, and flush and compaction to move data from the
//! one to the other. The library decides and computes; it reads and writes no
//! file itself.
pub mod bytes;
pub mod compact;
pub mod config;
pub mod controller;
pub mod engine;
pub mod error;
pub mod manifest;
pub mod memtable;
pub mod merge;
pub mod model;
pub mod naming;
pub mod ordered;
pub mod record;
pub mod sparse_index;
pub mod sstable_set;
pub mod table;

pub use config::Config;
pub use controller::Controller;
pub use engine::DatabaseImpl;
pub use error::StoreError;
pub use manifest::Manifest;
pub use record::Value;
