//! The settings of a running store.
use vstd::prelude::*;

verus! {

/// How a store is run.
#[derive(Clone, Debug)]
pub struct Config {
    /// The port the server listens on.
    pub port: u16,
    /// The live bytes above which the in-memory table is flushed.
    pub memtable_limit: usize,
    /// The directory that holds the table files.
    pub directory: String,
    /// The compaction threshold, in percent.
    pub compaction_trigger_ratio: u64,
    /// The number of records per block of a table's index.
    pub block_stride: usize,
}

} // verus!
