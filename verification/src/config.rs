//! How an engine is set up.
use vstd::prelude::*;
use vstd::string::StringExecFns;

verus! {

/// The options of an engine.
#[derive(Debug)]
pub struct Config {
    /// The directory that holds the manifest and the tables.
    pub data_dir: String,
    /// Every `sparse_stride`-th record of a table gets an index entry.
    pub sparse_stride: usize,
    /// Advisory size of the memtable, in bytes.
    pub memtable_capacity: usize,
    /// Whether a missing manifest is created on start.
    pub create_if_missing: bool,
}

impl Default for Config {
    fn default() -> (c: Self)
        ensures
            c.data_dir@ == "./data"@,
            c.sparse_stride == 50,
            c.memtable_capacity == 1000,
            c.create_if_missing,
    {
        Self {
            data_dir: String::from_str("./data"),
            sparse_stride: 50,
            memtable_capacity: 1000,
            create_if_missing: true,
        }
    }
}

} // verus!
