//! Extraction of event-log records from an ordered key-value ledger into
//! columnar row groups.
//!
//! The store is read in key order; every entry carries a composite key
//! (block number, transaction index) and a payload holding a list of log
//! records. Records are filtered, collected into chunks of bounded size and
//! laid out as nine parallel columns, one row group per chunk.

pub mod codec;
pub mod engine;
pub mod http;
pub mod job_laws;
pub mod payload;
pub mod storage;
pub mod types;
