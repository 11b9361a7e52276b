//! A persistent key-value store built on a log-structured merge tree.
//!
//! The verified core: the on-disk record codec, the sparse block index, the
//! in-memory table with tombstones and size accounting, the table manager
//! with newest-first reads and recency-priority compaction, and the command
//! router. File and network I/O live with the caller.
pub mod bytes;
pub mod command;
pub mod error;
pub mod format;
pub mod index;
pub mod table;
pub mod manager;
pub mod memtable;
pub mod config;
pub mod parse;
pub mod router;
pub mod naming;
