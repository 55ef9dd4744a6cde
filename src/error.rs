use vstd::prelude::*;

verus! {

/// What can go wrong in the engine's own logic. Corruption is fatal to the operation that
/// finds it; nothing is repaired.
#[derive(Debug, Clone, Copy, PartialEq, Eq, Structural)]
pub enum StorageError {
    /// A write-ahead-log record's checksum does not match its contents.
    WalChecksumMismatch,
    /// The write-ahead log ends inside a record.
    WalTruncated,
    /// A block's trailing checksum does not match its bytes.
    BlockChecksumMismatch,
    /// A block's bytes do not hold a well-formed block.
    MalformedBlock,
    /// The block-meta section's checksum does not match its bytes.
    MetaChecksumMismatch,
    /// A table's trailer or block-meta section cannot be read.
    MalformedTable,
    /// A manifest record's checksum does not match its payload.
    ManifestChecksumMismatch,
    /// The manifest ends inside a record.
    ManifestTruncated,
    /// The manifest flushes a memtable that it never created.
    UnknownMemtable,
    /// The state refers to a table that is not open.
    UnknownTable,
    /// No id is left for a new memtable or table.
    IdSpaceExhausted,
}

} // verus!
