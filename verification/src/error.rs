//! What can be wrong with stored bytes.

use vstd::prelude::*;

verus! {

/// Why stored bytes were not accepted.
#[derive(Debug, Clone, Copy, PartialEq, Eq, Structural)]
pub enum StorageError {
    /// A value log file does not start with the magic number.
    BadMagic { found: u32 },
    /// An entry is said to be smaller than an entry header.
    EntryTooSmall { size: usize },
    /// The key does not fit into what the header leaves of the entry.
    KeyTooLong { key_len: usize, remaining: usize },
    /// The value does not fit into what the header and the key leave of the entry.
    ValueTooLong { value_len: usize, remaining: usize },
    /// The header and the key do not have the checksum stored with them.
    HeaderCrcMismatch { computed: u32, stored: u32, offset: u64 },
    /// The value does not have the checksum stored with it.
    ValueCrcMismatch { computed: u32, stored: u32, offset: u64 },
    /// The size of an entry cannot be represented in memory.
    EntrySizeOverflow,
    /// The size of an entry cannot be represented in a value pointer.
    EntryTooLarge,
    /// The end of an entry is beyond the last file offset.
    OffsetOverflow,
    /// An entry goes on past the end of its file.
    PastEndOfFile,
}

} // verus!
