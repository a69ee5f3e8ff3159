//! Reading a value log file.
//!
//! Nothing here touches a file. A read in progress says which bytes it needs next; whoever holds
//! the file fetches them and hands them over, until the read is done.

use crate::codec::{le_u16_bytes, le_u32, le_u32_bytes};
use crate::error::StorageError;
use crate::vlog::checksum::crc32;
use crate::vlog::{entry_size, EntryHeaderView};
use crate::vlog::{
    law_entry_size_is_the_next_multiple_of_eight, law_header_checksum_covers_the_fields,
    law_header_fields_weigh_their_bytes,
};
use crate::vlog::{ValuePointer, VlogEntry, VlogEntryHeader, VlogEntryView, VlogFileHeader};
use crate::vlog::{FILE_HEADER_SIZE, HEADER_SIZE, VLOG_MAGIC};
use vstd::prelude::*;

verus! {

/// The bytes that a read needs next: `len` bytes of the file, from `offset` on.
#[derive(Debug, Clone, Copy, PartialEq, Eq, Structural)]
pub struct ReadRequest {
    pub offset: u64,
    pub len: usize,
}

impl ReadRequest {
    /// The first offset behind the requested bytes.
    pub open spec fn end(self) -> int {
        self.offset + self.len
    }

    /// What the request asks for, in a file with these contents.
    pub open spec fn answer(self, file: Seq<u8>) -> Seq<u8> {
        file.subrange(self.offset as int, self.end())
    }
}

/// A request is for as many bytes as it says, from its offset on.
pub proof fn law_request_is_a_range_of_the_file(request: ReadRequest, file: Seq<u8>)
    ensures
        request.end() == request.offset + request.len,
        request.answer(file) == file.subrange(
            request.offset as int,
            request.offset + request.len,
        ),
{
}

/// A value log file whose header has been accepted.
pub struct ValueLogReader {
    pub header: VlogFileHeader,
}

/// The reading of one entry, at a given offset and with a given size.
pub enum EntryRead {
    /// The entry's header is needed.
    Header { offset: u64, size: u32 },
    /// The entry's key is needed.
    Key { offset: u64, size: u32, header: VlogEntryHeader },
    /// The entry's value is needed.
    Value { offset: u64, size: u32, header: VlogEntryHeader, key: Vec<u8> },
    /// Nothing more is needed.
    Done { outcome: Result<VlogEntry, StorageError> },
}

/// The contents of an `EntryRead`.
#[verifier::ext_equal]
pub enum EntryReadView {
    Header { offset: u64, size: u32 },
    Key { offset: u64, size: u32, header: EntryHeaderView },
    Value { offset: u64, size: u32, header: EntryHeaderView, key: Seq<u8> },
    Done { outcome: Result<VlogEntryView, StorageError> },
}

/// Why an entry of `size` bytes cannot have this header, if it cannot: the key must fit behind
/// the header, and the value behind the key.
pub open spec fn misfit(header: EntryHeaderView, size: u32) -> Option<StorageError> {
    let after_header = size - HEADER_SIZE;
    let after_key = after_header - header.key_len;
    if header.key_len > after_header {
        Some(
            StorageError::KeyTooLong {
                key_len: header.key_len as usize,
                remaining: after_header as usize,
            },
        )
    } else if header.value_len > after_key {
        Some(
            StorageError::ValueTooLong {
                value_len: header.value_len as usize,
                remaining: after_key as usize,
            },
        )
    } else {
        None
    }
}

/// What is wrong if a header and its key have this checksum.
pub open spec fn header_corruption(header: EntryHeaderView, computed: u32, offset: u64) -> Option<
    StorageError,
> {
    if computed != header.header_crc32 {
        Some(StorageError::HeaderCrcMismatch { computed, stored: header.header_crc32, offset })
    } else {
        None
    }
}

/// What is wrong if the value that belongs to a header has this checksum.
pub open spec fn value_corruption(header: EntryHeaderView, computed: u32, offset: u64) -> Option<
    StorageError,
> {
    if computed != header.value_crc32 {
        Some(StorageError::ValueCrcMismatch { computed, stored: header.value_crc32, offset })
    } else {
        None
    }
}

/// What an entry of `size` bytes at `offset` is read as, given its header, key and value and the
/// checksums that these have.
pub open spec fn entry_given_crcs(
    offset: u64,
    size: u32,
    header: EntryHeaderView,
    key: Seq<u8>,
    value: Seq<u8>,
    header_crc: u32,
    value_crc: u32,
) -> Result<VlogEntryView, StorageError> {
    match (
        header_corruption(header, header_crc, offset),
        value_corruption(header, value_crc, offset),
    ) {
        (Some(e), _) => Err(e),
        (None, Some(e)) => Err(e),
        (None, None) => Ok(
            VlogEntryView {
                ptr: ValuePointer { file_id: 0, offset, size },
                key,
                value,
                size: size as usize,
            },
        ),
    }
}

/// What an entry of `size` bytes at `offset` is read as, given its header, key and value.
pub open spec fn checked_entry(
    offset: u64,
    size: u32,
    header: EntryHeaderView,
    key: Seq<u8>,
    value: Seq<u8>,
) -> Result<VlogEntryView, StorageError> {
    entry_given_crcs(offset, size, header, key, value, header.crc_with_key(key), crc32(value))
}

impl EntryReadView {
    /// Where the reading of an entry begins.
    pub open spec fn start(offset: u64, size: u32) -> EntryReadView {
        if size < HEADER_SIZE {
            let e = StorageError::EntryTooSmall { size: size as usize };
            EntryReadView::Done { outcome: Err(e) }
        } else {
            EntryReadView::Header { offset, size }
        }
    }

    /// What a reading that began with `start` has found out by now.
    pub open spec fn wf(self) -> bool {
        match self {
            EntryReadView::Header { size, .. } => size >= HEADER_SIZE,
            EntryReadView::Key { offset, size, header } => {
                &&& size >= HEADER_SIZE
                &&& misfit(header, size) is None
                &&& offset + HEADER_SIZE <= u64::MAX
            },
            EntryReadView::Value { offset, size, header, key } => {
                &&& size >= HEADER_SIZE
                &&& misfit(header, size) is None
                &&& offset + HEADER_SIZE + header.key_len <= u64::MAX
                &&& key.len() == header.key_len
            },
            EntryReadView::Done { .. } => true,
        }
    }

    /// The bytes needed next.
    pub open spec fn request(self) -> Option<ReadRequest> {
        match self {
            EntryReadView::Header { offset, .. } => Some(ReadRequest { offset, len: HEADER_SIZE }),
            EntryReadView::Key { offset, header, .. } => Some(
                ReadRequest { offset: (offset + HEADER_SIZE) as u64, len: header.key_len as usize },
            ),
            EntryReadView::Value { offset, header, .. } => Some(
                ReadRequest {
                    offset: (offset + HEADER_SIZE + header.key_len) as u64,
                    len: header.value_len as usize,
                },
            ),
            EntryReadView::Done { .. } => None,
        }
    }

    /// How the reading goes on with the requested bytes.
    pub open spec fn resumed(self, bytes: Seq<u8>) -> EntryReadView {
        match self {
            EntryReadView::Header { offset, size } => {
                let header = EntryHeaderView::decoded(bytes);
                match misfit(header, size) {
                    Some(e) => EntryReadView::Done { outcome: Err(e) },
                    None => EntryReadView::Key { offset, size, header },
                }
            },
            EntryReadView::Key { offset, size, header } => EntryReadView::Value {
                offset,
                size,
                header,
                key: bytes,
            },
            EntryReadView::Value { offset, size, header, key } => EntryReadView::Done {
                outcome: checked_entry(offset, size, header, key, bytes),
            },
            EntryReadView::Done { .. } => self,
        }
    }

    /// How many requests may still come.
    pub open spec fn rank(self) -> nat {
        match self {
            EntryReadView::Header { .. } => 3,
            EntryReadView::Key { .. } => 2,
            EntryReadView::Value { .. } => 1,
            EntryReadView::Done { .. } => 0,
        }
    }

    /// What comes out when every request is answered from `file`; `None` if one of them goes past
    /// the end of the file, where the reading of the file fails.
    pub open spec fn run(self, file: Seq<u8>) -> Option<Result<VlogEntryView, StorageError>>
        decreases self.rank(),
    {
        match self {
            EntryReadView::Done { outcome } => Some(outcome),
            _ => {
                let request = self.request()->0;
                if request.end() <= file.len() {
                    self.resumed(request.answer(file)).run(file)
                } else {
                    None
                }
            },
        }
    }
}

impl View for EntryRead {
    type V = EntryReadView;

    open spec fn view(&self) -> EntryReadView {
        match *self {
            EntryRead::Header { offset, size } => EntryReadView::Header { offset, size },
            EntryRead::Key { offset, size, header } => EntryReadView::Key {
                offset,
                size,
                header: header@,
            },
            EntryRead::Value { offset, size, header, key } => EntryReadView::Value {
                offset,
                size,
                header: header@,
                key: key@,
            },
            EntryRead::Done { outcome } => EntryReadView::Done {
                outcome: match outcome {
                    Ok(entry) => Ok(entry@),
                    Err(e) => Err(e),
                },
            },
        }
    }
}

impl EntryRead {
    /// The bytes needed next; `None` once the reading is done.
    pub fn request(&self) -> (r: Option<ReadRequest>)
        requires
            self@.wf(),
        ensures
            r == self@.request(),
            match *self {
                EntryRead::Header { offset, .. } => {
                    r matches Some(request) && request.offset == offset && request.len == 24
                },
                EntryRead::Key { offset, header, .. } => {
                    r matches Some(request) && request.offset == offset + 24 && request.len
                        == header.key_len
                },
                EntryRead::Value { offset, header, .. } => {
                    r matches Some(request) && request.offset == offset + 24 + header.key_len
                        && request.len == header.value_len
                },
                EntryRead::Done { .. } => r is None,
            },
    {
        match self {
            EntryRead::Header { offset, .. } => {
                Some(ReadRequest { offset: *offset, len: HEADER_SIZE })
            },
            EntryRead::Key { offset, header, .. } => Some(
                ReadRequest { offset: *offset + HEADER_SIZE as u64, len: header.key_len as usize },
            ),
            EntryRead::Value { offset, header, .. } => Some(
                ReadRequest {
                    offset: *offset + HEADER_SIZE as u64 + header.key_len as u64,
                    len: header.value_len as usize,
                },
            ),
            EntryRead::Done { .. } => None,
        }
    }

    /// Goes on with the requested bytes.
    ///
    /// The header tells how long the key and the value are, so that no more than that is fetched
    /// whatever the size of the entry is said to be. The checksums are compared once all is there.
    pub fn resume(self, bytes: Vec<u8>) -> (next: EntryRead)
        requires
            self@.wf(),
            self@.request() matches Some(request) && bytes@.len() == request.len && request.end()
                <= u64::MAX,
        ensures
            next@ == self@.resumed(bytes@),
            next@.wf(),
            next@.rank() < self@.rank(),
            match self {
                EntryRead::Header { offset, size } => {
                    let key_len = bytes@[12] + 0x100 * bytes@[13];
                    let value_len = bytes@[8] + 0x100 * bytes@[9] + 0x1_0000 * bytes@[10]
                        + 0x100_0000 * bytes@[11];
                    if key_len > size - 24 {
                        next matches EntryRead::Done {
                            outcome: Err(StorageError::KeyTooLong { key_len: found, remaining }),
                        } && found == key_len && remaining == size - 24
                    } else if value_len > size - 24 - key_len {
                        next matches EntryRead::Done {
                            outcome: Err(
                                StorageError::ValueTooLong { value_len: found, remaining },
                            ),
                        } && found == value_len && remaining == size - 24 - key_len
                    } else {
                        next matches EntryRead::Key { offset: same_offset, size: same_size, header }
                            && {
                            &&& same_offset == offset
                            &&& same_size == size
                            &&& header.header_crc32 == bytes@[0] + 0x100 * bytes@[1] + 0x1_0000
                                * bytes@[2] + 0x100_0000 * bytes@[3]
                            &&& header.value_crc32 == bytes@[4] + 0x100 * bytes@[5] + 0x1_0000
                                * bytes@[6] + 0x100_0000 * bytes@[7]
                            &&& header.value_len == value_len
                            &&& header.key_len == key_len
                            &&& header.flags == bytes@[14] + 0x100 * bytes@[15]
                            &&& header.padding@ == bytes@.subrange(16, 24)
                        }
                    }
                },
                EntryRead::Key { offset, size, header } => {
                    next matches EntryRead::Value {
                        offset: same_offset,
                        size: same_size,
                        header: same_header,
                        key,
                    } && same_offset == offset && same_size == size && same_header == header
                        && key@ == bytes@
                },
                EntryRead::Value { offset, size, header, key } => {
                    let header_crc = crc32(
                        le_u32_bytes(header.value_crc32) + le_u32_bytes(header.value_len)
                            + le_u16_bytes(header.key_len) + le_u16_bytes(header.flags)
                            + header.padding@ + key@,
                    );
                    let value_crc = crc32(bytes@);
                    if header_crc != header.header_crc32 {
                        next matches EntryRead::Done {
                            outcome: Err(
                                StorageError::HeaderCrcMismatch { computed, stored, offset: at },
                            ),
                        } && computed == header_crc && stored == header.header_crc32 && at == offset
                    } else if value_crc != header.value_crc32 {
                        next matches EntryRead::Done {
                            outcome: Err(
                                StorageError::ValueCrcMismatch { computed, stored, offset: at },
                            ),
                        } && computed == value_crc && stored == header.value_crc32 && at == offset
                    } else {
                        next matches EntryRead::Done { outcome: Ok(entry) } && {
                            &&& entry.key@ == key@
                            &&& entry.value@ == bytes@
                            &&& entry.size == size
                            &&& entry.ptr.file_id == 0
                            &&& entry.ptr.offset == offset
                            &&& entry.ptr.size == size
                        }
                    }
                },
                EntryRead::Done { .. } => true,
            },
    {
        match self {
            EntryRead::Header { offset, size } => {
                let header: VlogEntryHeader = VlogEntryHeader::decode(bytes.as_slice());
                let after_header: usize = size as usize - HEADER_SIZE;
                let key_len: usize = header.key_len as usize;
                if key_len > after_header {
                    let e = StorageError::KeyTooLong { key_len, remaining: after_header };
                    return EntryRead::Done { outcome: Err(e) };
                }
                let after_key: usize = after_header - key_len;
                let value_len: usize = header.value_len as usize;
                if value_len > after_key {
                    let e = StorageError::ValueTooLong { value_len, remaining: after_key };
                    return EntryRead::Done { outcome: Err(e) };
                }
                EntryRead::Key { offset, size, header }
            },
            EntryRead::Key { offset, size, header } => EntryRead::Value {
                offset,
                size,
                header,
                key: bytes,
            },
            EntryRead::Value { offset, size, header, key } => {
                let header_crc: u32 = header.compute_header_crc(key.as_slice());
                let value_crc: u32 = crc32fast::hash(bytes.as_slice());
                let outcome = entry_with_crcs(
                    offset,
                    size,
                    header,
                    key,
                    bytes,
                    header_crc,
                    value_crc,
                );
                EntryRead::Done { outcome }
            },
            EntryRead::Done { .. } => self,
        }
    }
}

/// Compares the checksum of a header and its key with the stored one.
pub fn compare_header_crc(header: &VlogEntryHeader, computed: u32, offset: u64) -> (r: Result<
    (),
    StorageError,
>)
    ensures
        r == (match header_corruption(header@, computed, offset) {
            Some(e) => Err(e),
            None => Ok(()),
        }),
        r is Ok <==> computed == header.header_crc32,
        r matches Err(e) ==> e == (StorageError::HeaderCrcMismatch {
            computed,
            stored: header.header_crc32,
            offset,
        }),
{
    if computed != header.header_crc32 {
        let stored: u32 = header.header_crc32;
        return Err(StorageError::HeaderCrcMismatch { computed, stored, offset });
    }
    Ok(())
}

/// Makes an entry of a header, a key and a value that have the given checksums, if these are the
/// stored ones.
pub fn entry_with_crcs(
    offset: u64,
    size: u32,
    header: VlogEntryHeader,
    key: Vec<u8>,
    value: Vec<u8>,
    header_crc: u32,
    value_crc: u32,
) -> (r: Result<VlogEntry, StorageError>)
    ensures
        match entry_given_crcs(offset, size, header@, key@, value@, header_crc, value_crc) {
            Ok(entry) => r matches Ok(found) && found@ == entry,
            Err(e) => r matches Err(found) && found == e,
        },
        r is Ok <==> header_crc == header.header_crc32 && value_crc == header.value_crc32,
        r matches Ok(entry) ==> {
            &&& entry.key@ == key@
            &&& entry.value@ == value@
            &&& entry.size == size
            &&& entry.ptr.file_id == 0
            &&& entry.ptr.offset == offset
            &&& entry.ptr.size == size
        },
        r matches Err(e) ==> e == (if header_crc != header.header_crc32 {
            StorageError::HeaderCrcMismatch {
                computed: header_crc,
                stored: header.header_crc32,
                offset,
            }
        } else {
            StorageError::ValueCrcMismatch {
                computed: value_crc,
                stored: header.value_crc32,
                offset,
            }
        }),
{
    match compare_header_crc(&header, header_crc, offset) {
        Ok(()) => {},
        Err(e) => return Err(e),
    }
    if value_crc != header.value_crc32 {
        let stored: u32 = header.value_crc32;
        return Err(StorageError::ValueCrcMismatch { computed: value_crc, stored, offset });
    }
    let ptr = ValuePointer { file_id: 0, offset, size };
    Ok(VlogEntry { ptr, key, value, size: size as usize })
}

impl ValueLogReader {
    /// Accepts a value log file by its first bytes, which must be a valid file header.
    pub fn open(header_buf: &[u8; FILE_HEADER_SIZE]) -> (r: Result<Self, StorageError>)
        ensures
            r is Ok <==> le_u32(header_buf@) == VLOG_MAGIC,
            r matches Ok(reader) ==> reader.header.lies_in(header_buf@),
            r matches Err(e) ==> e == (StorageError::BadMagic { found: le_u32(header_buf@) }),
            r is Ok <==> header_buf@[0] == 0x47 && header_buf@[1] == 0x4F && header_buf@[2] == 0x4C
                && header_buf@[3] == 0x56,
            r matches Ok(reader) ==> {
                &&& reader.header.magic == 0x564C4F47
                &&& reader.header.version == header_buf@[4] + 0x100 * header_buf@[5]
                &&& reader.header.reserved@ == header_buf@.subrange(6, 16)
            },
            r matches Err(e) ==> (e matches StorageError::BadMagic { found } && found
                == header_buf@[0] + 0x100 * header_buf@[1] + 0x1_0000 * header_buf@[2] + 0x100_0000
                * header_buf@[3]),
    {
        match VlogFileHeader::decode(header_buf) {
            Ok(header) => Ok(ValueLogReader { header }),
            Err(e) => Err(e),
        }
    }

    /// Begins to read the entry at `offset` that takes up `size` bytes.
    pub fn read_entry(&self, offset: u64, size: u32) -> (read: EntryRead)
        ensures
            read@ == EntryReadView::start(offset, size),
            read@.wf(),
            size < 24 ==> (read matches EntryRead::Done {
                outcome: Err(StorageError::EntryTooSmall { size: found }),
            } && found == size),
            size >= 24 ==> (read matches EntryRead::Header {
                offset: same_offset,
                size: same_size,
            } && same_offset == offset && same_size == size),
    {
        if (size as usize) < HEADER_SIZE {
            let e = StorageError::EntryTooSmall { size: size as usize };
            return EntryRead::Done { outcome: Err(e) };
        }
        EntryRead::Header { offset, size }
    }

    /// Begins to walk over the entries of the file, which has `file_size` bytes, by their headers
    /// and keys alone.
    pub fn iter_headers(&self, file_size: u64) -> (it: VlogHeaderIterator)
        ensures
            it@ == (HeaderIteratorView { offset: FILE_HEADER_SIZE as u64, file_size, file_id: 0 }),
            it@.offset == 16,
            it@.file_size == file_size,
            it@.file_id == 0,
    {
        VlogHeaderIterator { offset: FILE_HEADER_SIZE as u64, file_size, file_id: 0 }
    }
}

/// What is known of an entry without reading its value.
#[derive(Debug, PartialEq, Eq)]
pub struct VlogEntryMeta {
    pub ptr: ValuePointer,
    pub key: Vec<u8>,
    pub value_len: u32,
    pub entry_size: usize,
}

/// The contents of a `VlogEntryMeta`.
#[verifier::ext_equal]
pub struct VlogEntryMetaView {
    pub ptr: ValuePointer,
    pub key: Seq<u8>,
    pub value_len: u32,
    pub entry_size: usize,
}

impl View for VlogEntryMeta {
    type V = VlogEntryMetaView;

    open spec fn view(&self) -> VlogEntryMetaView {
        VlogEntryMetaView {
            ptr: self.ptr,
            key: self.key@,
            value_len: self.value_len,
            entry_size: self.entry_size,
        }
    }
}

/// A walk over the entries of a file that reads their headers and keys and skips their values.
///
/// Each step asks for an entry's header, then for its key, and then moves behind the entry. Where
/// anything is wrong with an entry, the walk ends with it.
pub struct VlogHeaderIterator {
    offset: u64,
    file_size: u64,
    file_id: u32,
}

/// The contents of a `VlogHeaderIterator`.
#[verifier::ext_equal]
pub struct HeaderIteratorView {
    /// Where the next entry starts.
    pub offset: u64,
    /// The size of the file.
    pub file_size: u64,
    /// The file that the pointers to the entries name.
    pub file_id: u32,
}

/// An entry whose header has been accepted and whose key is still to come.
pub struct PendingEntry {
    header: VlogEntryHeader,
    key_offset: u64,
    entry_size: u32,
}

/// The contents of a `PendingEntry`.
#[verifier::ext_equal]
pub struct PendingEntryView {
    pub header: EntryHeaderView,
    pub key_offset: u64,
    pub entry_size: u32,
}

impl View for PendingEntry {
    type V = PendingEntryView;

    closed spec fn view(&self) -> PendingEntryView {
        PendingEntryView {
            header: self.header@,
            key_offset: self.key_offset,
            entry_size: self.entry_size,
        }
    }
}

impl PendingEntryView {
    /// The request for the key.
    pub open spec fn request(self) -> ReadRequest {
        ReadRequest { offset: self.key_offset, len: self.header.key_len as usize }
    }
}

impl PendingEntry {
    /// The request for the key.
    pub fn request(&self) -> (r: ReadRequest)
        ensures
            r == self@.request(),
            r.offset == self@.key_offset,
            r.len == self@.header.key_len,
    {
        ReadRequest { offset: self.key_offset, len: self.header.key_len as usize }
    }
}

impl HeaderIteratorView {
    /// The request for the next entry's header; `None` at the end of the file.
    pub open spec fn request(self) -> Option<ReadRequest> {
        if self.offset < self.file_size {
            Some(ReadRequest { offset: self.offset, len: HEADER_SIZE })
        } else {
            None
        }
    }

    /// What the next entry's header tells: the entry must be representable and within the file.
    pub open spec fn header_outcome(self, bytes: Seq<u8>) -> Result<
        PendingEntryView,
        StorageError,
    > {
        let header = EntryHeaderView::decoded(bytes);
        let entry_size = entry_size(header.key_len as int, header.value_len as int);
        if entry_size > usize::MAX {
            Err(StorageError::EntrySizeOverflow)
        } else if entry_size > u32::MAX {
            Err(StorageError::EntryTooLarge)
        } else if self.offset + entry_size > u64::MAX {
            Err(StorageError::OffsetOverflow)
        } else if self.offset + entry_size > self.file_size {
            Err(StorageError::PastEndOfFile)
        } else {
            Ok(
                PendingEntryView {
                    header,
                    key_offset: (self.offset + HEADER_SIZE) as u64,
                    entry_size: entry_size as u32,
                },
            )
        }
    }

    /// Whether `pending` came of the header of the next entry.
    pub open spec fn awaits(self, pending: PendingEntryView) -> bool {
        &&& pending.key_offset == self.offset + HEADER_SIZE
        &&& pending.entry_size == entry_size(
            pending.header.key_len as int,
            pending.header.value_len as int,
        )
        &&& self.offset + pending.entry_size <= self.file_size
    }

    /// What the next entry's key tells, if the header and the key have the given checksum.
    pub open spec fn key_outcome_given_crc(
        self,
        pending: PendingEntryView,
        key: Seq<u8>,
        computed: u32,
    ) -> Result<VlogEntryMetaView, StorageError> {
        match header_corruption(pending.header, computed, self.offset) {
            Some(e) => Err(e),
            None => Ok(
                VlogEntryMetaView {
                    ptr: ValuePointer {
                        file_id: self.file_id,
                        offset: self.offset,
                        size: pending.entry_size,
                    },
                    key,
                    value_len: pending.header.value_len,
                    entry_size: pending.entry_size as usize,
                },
            ),
        }
    }

    /// What the next entry's key tells: the stored checksum must be that of the header and the key.
    pub open spec fn key_outcome(self, pending: PendingEntryView, key: Seq<u8>) -> Result<
        VlogEntryMetaView,
        StorageError,
    > {
        self.key_outcome_given_crc(pending, key, pending.header.crc_with_key(key))
    }

    /// The walk `n` bytes further on.
    pub open spec fn moved(self, n: int) -> HeaderIteratorView {
        HeaderIteratorView { offset: (self.offset + n) as u64, ..self }
    }

    /// The walk when it has ended.
    pub open spec fn ended(self) -> HeaderIteratorView {
        HeaderIteratorView { offset: self.file_size, ..self }
    }
}

impl View for VlogHeaderIterator {
    type V = HeaderIteratorView;

    closed spec fn view(&self) -> HeaderIteratorView {
        HeaderIteratorView {
            offset: self.offset,
            file_size: self.file_size,
            file_id: self.file_id,
        }
    }
}

impl VlogHeaderIterator {
    /// Sets the file that the pointers to the entries name.
    pub fn with_file_id(self, file_id: u32) -> (it: Self)
        ensures
            it@ == (HeaderIteratorView { file_id, ..self@ }),
            it@.file_id == file_id,
            it@.offset == self@.offset,
            it@.file_size == self@.file_size,
    {
        let mut it = self;
        it.file_id = file_id;
        it
    }

    /// Begins the next step: asks for the next entry's header, or ends the walk with `None`.
    pub fn next(&self) -> (r: Option<ReadRequest>)
        ensures
            r == self@.request(),
            r is Some <==> self@.offset < self@.file_size,
            r matches Some(request) ==> request.offset == self@.offset && request.len == 24,
    {
        if self.offset >= self.file_size {
            return None;
        }
        Some(ReadRequest { offset: self.offset, len: HEADER_SIZE })
    }

    /// Takes the next entry's header.
    pub fn accept_header(&mut self, bytes: &[u8]) -> (r: Result<PendingEntry, StorageError>)
        requires
            old(self)@.request() is Some,
            bytes@.len() == HEADER_SIZE,
        ensures
            match old(self)@.header_outcome(bytes@) {
                Ok(pending) => {
                    &&& r matches Ok(p) && p@ == pending
                    &&& final(self)@ == old(self)@
                    &&& final(self)@.awaits(pending)
                },
                Err(e) => {
                    &&& r matches Err(found) && found == e
                    &&& final(self)@ == old(self)@.ended()
                },
            },
            ({
                let key_len = bytes@[12] + 0x100 * bytes@[13];
                let value_len = bytes@[8] + 0x100 * bytes@[9] + 0x1_0000 * bytes@[10] + 0x100_0000
                    * bytes@[11];
                let size = (24 + key_len + value_len + 7) / 8 * 8;
                let end = old(self)@.offset + size;
                &&& r is Ok <==> size <= usize::MAX && size <= u32::MAX && end
                    <= old(self)@.file_size
                &&& r matches Ok(pending) ==> {
                    &&& pending@.key_offset == old(self)@.offset + 24
                    &&& pending@.entry_size == size
                    &&& pending@.header.header_crc32 == bytes@[0] + 0x100 * bytes@[1] + 0x1_0000
                        * bytes@[2] + 0x100_0000 * bytes@[3]
                    &&& pending@.header.value_crc32 == bytes@[4] + 0x100 * bytes@[5] + 0x1_0000
                        * bytes@[6] + 0x100_0000 * bytes@[7]
                    &&& pending@.header.value_len == value_len
                    &&& pending@.header.key_len == key_len
                    &&& pending@.header.flags == bytes@[14] + 0x100 * bytes@[15]
                    &&& pending@.header.padding == bytes@.subrange(16, 24)
                    &&& final(self)@.offset == old(self)@.offset
                    &&& final(self)@.file_size == old(self)@.file_size
                    &&& final(self)@.file_id == old(self)@.file_id
                }
                &&& r matches Err(e) ==> {
                    &&& final(self)@.offset == old(self)@.file_size
                    &&& final(self)@.file_size == old(self)@.file_size
                    &&& final(self)@.file_id == old(self)@.file_id
                    &&& e == (if size > usize::MAX {
                        StorageError::EntrySizeOverflow
                    } else if size > u32::MAX {
                        StorageError::EntryTooLarge
                    } else if end > u64::MAX {
                        StorageError::OffsetOverflow
                    } else {
                        StorageError::PastEndOfFile
                    })
                }
            }),
    {
        proof {
            law_header_fields_weigh_their_bytes(bytes@);
            law_entry_size_is_the_next_multiple_of_eight(
                (bytes@[12] + 0x100 * bytes@[13]) as nat,
                (bytes@[8] + 0x100 * bytes@[9] + 0x1_0000 * bytes@[10] + 0x100_0000
                    * bytes@[11]) as nat,
            );
        }
        let header: VlogEntryHeader = VlogEntryHeader::decode(bytes);
        let key_len: usize = header.key_len as usize;
        let value_len: usize = header.value_len as usize;
        let entry_size: u64 = match VlogEntryHeader::compute_entry_size(key_len, value_len) {
            Some(n) => n as u64,
            None => {
                self.read_failed();
                return Err(StorageError::EntrySizeOverflow);
            },
        };
        if entry_size > u32::MAX as u64 {
            self.read_failed();
            return Err(StorageError::EntryTooLarge);
        }
        let next_offset: u64 = match self.offset.checked_add(entry_size) {
            Some(n) => n,
            None => {
                self.read_failed();
                return Err(StorageError::OffsetOverflow);
            },
        };
        if next_offset > self.file_size {
            self.read_failed();
            return Err(StorageError::PastEndOfFile);
        }
        let key_offset: u64 = self.offset + HEADER_SIZE as u64;
        Ok(PendingEntry { header, key_offset, entry_size: entry_size as u32 })
    }

    /// Takes the next entry's key and moves behind the entry.
    pub fn accept_key(&mut self, pending: PendingEntry, key: Vec<u8>) -> (r: Result<
        VlogEntryMeta,
        StorageError,
    >)
        requires
            old(self)@.awaits(pending@),
            key@.len() == pending@.request().len,
        ensures
            match old(self)@.key_outcome(pending@, key@) {
                Ok(meta) => {
                    &&& r matches Ok(m) && m@ == meta
                    &&& final(self)@ == old(self)@.moved(pending@.entry_size as int)
                },
                Err(e) => {
                    &&& r matches Err(found) && found == e
                    &&& final(self)@ == old(self)@.ended()
                },
            },
            final(self)@.file_size == old(self)@.file_size,
            final(self)@.file_id == old(self)@.file_id,
            ({
                let header = pending@.header;
                let computed = crc32(
                    le_u32_bytes(header.value_crc32) + le_u32_bytes(header.value_len)
                        + le_u16_bytes(header.key_len) + le_u16_bytes(header.flags) + header.padding
                        + key@,
                );
                &&& r is Ok <==> computed == header.header_crc32
                &&& r matches Ok(meta) ==> {
                    &&& meta.ptr.file_id == old(self)@.file_id
                    &&& meta.ptr.offset == old(self)@.offset
                    &&& meta.ptr.size == pending@.entry_size
                    &&& meta.key@ == key@
                    &&& meta.value_len == header.value_len
                    &&& meta.entry_size == pending@.entry_size
                    &&& final(self)@.offset == old(self)@.offset + pending@.entry_size
                }
                &&& r matches Err(e) ==> {
                    &&& e == (StorageError::HeaderCrcMismatch {
                        computed,
                        stored: header.header_crc32,
                        offset: old(self)@.offset,
                    })
                    &&& final(self)@.offset == old(self)@.file_size
                }
            }),
    {
        proof {
            law_header_checksum_covers_the_fields(pending@.header, key@);
        }
        let computed: u32 = pending.header.compute_header_crc(key.as_slice());
        self.accept_key_with_crc(pending, key, computed)
    }

    /// Takes the next entry's key, where its header and the key have the given checksum, and moves
    /// behind the entry.
    pub fn accept_key_with_crc(&mut self, pending: PendingEntry, key: Vec<u8>, computed: u32) -> (r:
        Result<VlogEntryMeta, StorageError>)
        requires
            old(self)@.awaits(pending@),
            key@.len() == pending@.request().len,
        ensures
            match old(self)@.key_outcome_given_crc(pending@, key@, computed) {
                Ok(meta) => {
                    &&& r matches Ok(m) && m@ == meta
                    &&& final(self)@ == old(self)@.moved(pending@.entry_size as int)
                },
                Err(e) => {
                    &&& r matches Err(found) && found == e
                    &&& final(self)@ == old(self)@.ended()
                },
            },
            final(self)@.file_size == old(self)@.file_size,
            final(self)@.file_id == old(self)@.file_id,
            r is Ok <==> computed == pending@.header.header_crc32,
            r matches Ok(meta) ==> {
                &&& meta.ptr.file_id == old(self)@.file_id
                &&& meta.ptr.offset == old(self)@.offset
                &&& meta.ptr.size == pending@.entry_size
                &&& meta.key@ == key@
                &&& meta.value_len == pending@.header.value_len
                &&& meta.entry_size == pending@.entry_size
                &&& final(self)@.offset == old(self)@.offset + pending@.entry_size
            },
            r matches Err(e) ==> {
                &&& e == (StorageError::HeaderCrcMismatch {
                    computed,
                    stored: pending@.header.header_crc32,
                    offset: old(self)@.offset,
                })
                &&& final(self)@.offset == old(self)@.file_size
            },
    {
        let offset: u64 = self.offset;
        match compare_header_crc(&pending.header, computed, offset) {
            Ok(()) => {},
            Err(e) => {
                self.read_failed();
                return Err(e);
            },
        }
        let entry_size: u32 = pending.entry_size;
        self.offset = offset + entry_size as u64;
        let ptr = ValuePointer { file_id: self.file_id, offset, size: entry_size };
        let value_len: u32 = pending.header.value_len;
        Ok(VlogEntryMeta { ptr, key, value_len, entry_size: entry_size as usize })
    }

    /// Ends the walk, because the file could not be read or an entry was not accepted.
    pub fn read_failed(&mut self)
        ensures
            final(self)@ == old(self)@.ended(),
            final(self)@.request() is None,
            final(self)@.offset == old(self)@.file_size,
            final(self)@.file_size == old(self)@.file_size,
            final(self)@.file_id == old(self)@.file_id,
    {
        self.offset = self.file_size;
    }
}

} // verus!
