//! A log-structured merge-tree key/value store: sorted blocks with prefix-compressed keys,
//! memtables with a checksummed write-ahead log, block-structured tables with a checksummed
//! index, a manifest of structural changes, and the engine that reads and writes across them.

use vstd::prelude::*;

pub mod block;
pub mod checksum;
pub mod encoding;
pub mod error;
pub mod keys;
pub mod lsm_storage;
pub mod manifest;
pub mod memtable;
pub mod merge;
pub mod sql;
pub mod sstable;

verus! {

} // verus!
